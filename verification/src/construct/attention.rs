//! Attention: emphasis and strong.
//!
//! Runs of `*` or `_` are labelled as attention sequences while the text is
//! tokenized.  Whether they open or close emphasis or strong depends on what
//! stands around them and on the runs around them, so that is settled
//! afterwards, by the resolver in this module.
//!
//! A sequence can open when it is followed by something that is no
//! whitespace, a sequence can close when it is preceded by something that is
//! no whitespace, with further conditions where punctuation is involved.
//! The resolver walks through the sequences that can close, and pairs each
//! with the nearest sequence before it that can open, is made of the same
//! marker, lies at the same depth, and is not ruled out because of the sizes
//! of the two.  A pair uses up one marker of either sequence for emphasis, or,
//! when both sequences have them, two markers for strong.

use crate::event::{Event, EventType, Point};
use crate::parser::Code;
use crate::token::TokenType;
use crate::tokenizer::Tokenizer;
use crate::util::edit_map::{
    added, edited, lemma_slot, moved, slot, sorted, with_moved_links, Change, EditMap,
};
use vstd::prelude::*;

verus! {

/// Character code kinds.
#[derive(Debug, Clone, Copy, PartialEq, Eq, Structural)]
pub enum GroupKind {
    /// Whitespace.
    Whitespace,
    /// Punctuation.
    Punctuation,
    /// Everything else.
    Other,
}

/// Type of sequence.
#[derive(Debug, Clone, Copy, PartialEq, Eq, Structural)]
pub enum MarkerKind {
    /// In a run of asterisks (`*`).
    Asterisk,
    /// In a run of underscores (`_`).
    Underscore,
}

/// Whether the character has the Unicode property `White_Space`.
pub open spec fn is_whitespace(character: char) -> bool {
    ||| '\u{9}' <= character <= '\u{d}'
    ||| character == ' '
    ||| character == '\u{85}'
    ||| character == '\u{a0}'
    ||| character == '\u{1680}'
    ||| '\u{2000}' <= character <= '\u{200a}'
    ||| character == '\u{2028}'
    ||| character == '\u{2029}'
    ||| character == '\u{202f}'
    ||| character == '\u{205f}'
    ||| character == '\u{3000}'
}

/// Whether the character is punctuation between `U+0021` and `U+061F`.
pub open spec fn punctuation_0(character: char) -> bool {
    ||| '\u{21}' <= character <= '\u{2f}'
    ||| '\u{3a}' <= character <= '\u{40}'
    ||| '\u{5b}' <= character <= '\u{60}'
    ||| '\u{7b}' <= character <= '\u{7e}'
    ||| character == '\u{a1}'
    ||| character == '\u{a7}'
    ||| character == '\u{ab}'
    ||| '\u{b6}' <= character <= '\u{b7}'
    ||| character == '\u{bb}'
    ||| character == '\u{bf}'
    ||| character == '\u{37e}'
    ||| character == '\u{387}'
    ||| '\u{55a}' <= character <= '\u{55f}'
    ||| '\u{589}' <= character <= '\u{58a}'
    ||| character == '\u{5be}'
    ||| character == '\u{5c0}'
    ||| character == '\u{5c3}'
    ||| character == '\u{5c6}'
    ||| '\u{5f3}' <= character <= '\u{5f4}'
    ||| '\u{609}' <= character <= '\u{60a}'
    ||| '\u{60c}' <= character <= '\u{60d}'
    ||| character == '\u{61b}'
    ||| '\u{61d}' <= character <= '\u{61f}'
}

/// Whether the character is punctuation between `U+0021` and `U+061F`.
fn is_punctuation_0(character: char) -> (r: bool)
    ensures
        r == punctuation_0(character),
{
    ('\u{21}' <= character && character <= '\u{2f}')
        || ('\u{3a}' <= character && character <= '\u{40}')
        || ('\u{5b}' <= character && character <= '\u{60}')
        || ('\u{7b}' <= character && character <= '\u{7e}')
        || character == '\u{a1}'
        || character == '\u{a7}'
        || character == '\u{ab}'
        || ('\u{b6}' <= character && character <= '\u{b7}')
        || character == '\u{bb}'
        || character == '\u{bf}'
        || character == '\u{37e}'
        || character == '\u{387}'
        || ('\u{55a}' <= character && character <= '\u{55f}')
        || ('\u{589}' <= character && character <= '\u{58a}')
        || character == '\u{5be}'
        || character == '\u{5c0}'
        || character == '\u{5c3}'
        || character == '\u{5c6}'
        || ('\u{5f3}' <= character && character <= '\u{5f4}')
        || ('\u{609}' <= character && character <= '\u{60a}')
        || ('\u{60c}' <= character && character <= '\u{60d}')
        || character == '\u{61b}'
        || ('\u{61d}' <= character && character <= '\u{61f}')
}

/// Whether the character is punctuation between `U+066A` and `U+104F`.
pub open spec fn punctuation_1(character: char) -> bool {
    ||| '\u{66a}' <= character <= '\u{66d}'
    ||| character == '\u{6d4}'
    ||| '\u{700}' <= character <= '\u{70d}'
    ||| '\u{7f7}' <= character <= '\u{7f9}'
    ||| '\u{830}' <= character <= '\u{83e}'
    ||| character == '\u{85e}'
    ||| '\u{964}' <= character <= '\u{965}'
    ||| character == '\u{970}'
    ||| character == '\u{9fd}'
    ||| character == '\u{a76}'
    ||| character == '\u{af0}'
    ||| character == '\u{c77}'
    ||| character == '\u{c84}'
    ||| character == '\u{df4}'
    ||| character == '\u{e4f}'
    ||| '\u{e5a}' <= character <= '\u{e5b}'
    ||| '\u{f04}' <= character <= '\u{f12}'
    ||| character == '\u{f14}'
    ||| '\u{f3a}' <= character <= '\u{f3d}'
    ||| character == '\u{f85}'
    ||| '\u{fd0}' <= character <= '\u{fd4}'
    ||| '\u{fd9}' <= character <= '\u{fda}'
    ||| '\u{104a}' <= character <= '\u{104f}'
}

/// Whether the character is punctuation between `U+066A` and `U+104F`.
fn is_punctuation_1(character: char) -> (r: bool)
    ensures
        r == punctuation_1(character),
{
    ('\u{66a}' <= character && character <= '\u{66d}')
        || character == '\u{6d4}'
        || ('\u{700}' <= character && character <= '\u{70d}')
        || ('\u{7f7}' <= character && character <= '\u{7f9}')
        || ('\u{830}' <= character && character <= '\u{83e}')
        || character == '\u{85e}'
        || ('\u{964}' <= character && character <= '\u{965}')
        || character == '\u{970}'
        || character == '\u{9fd}'
        || character == '\u{a76}'
        || character == '\u{af0}'
        || character == '\u{c77}'
        || character == '\u{c84}'
        || character == '\u{df4}'
        || character == '\u{e4f}'
        || ('\u{e5a}' <= character && character <= '\u{e5b}')
        || ('\u{f04}' <= character && character <= '\u{f12}')
        || character == '\u{f14}'
        || ('\u{f3a}' <= character && character <= '\u{f3d}')
        || character == '\u{f85}'
        || ('\u{fd0}' <= character && character <= '\u{fd4}')
        || ('\u{fd9}' <= character && character <= '\u{fda}')
        || ('\u{104a}' <= character && character <= '\u{104f}')
}

/// Whether the character is punctuation between `U+10FB` and `U+2043`.
pub open spec fn punctuation_2(character: char) -> bool {
    ||| character == '\u{10fb}'
    ||| '\u{1360}' <= character <= '\u{1368}'
    ||| character == '\u{1400}'
    ||| character == '\u{166e}'
    ||| '\u{169b}' <= character <= '\u{169c}'
    ||| '\u{16eb}' <= character <= '\u{16ed}'
    ||| '\u{1735}' <= character <= '\u{1736}'
    ||| '\u{17d4}' <= character <= '\u{17d6}'
    ||| '\u{17d8}' <= character <= '\u{17da}'
    ||| '\u{1800}' <= character <= '\u{180a}'
    ||| '\u{1944}' <= character <= '\u{1945}'
    ||| '\u{1a1e}' <= character <= '\u{1a1f}'
    ||| '\u{1aa0}' <= character <= '\u{1aa6}'
    ||| '\u{1aa8}' <= character <= '\u{1aad}'
    ||| '\u{1b5a}' <= character <= '\u{1b60}'
    ||| '\u{1b7d}' <= character <= '\u{1b7e}'
    ||| '\u{1bfc}' <= character <= '\u{1bff}'
    ||| '\u{1c3b}' <= character <= '\u{1c3f}'
    ||| '\u{1c7e}' <= character <= '\u{1c7f}'
    ||| '\u{1cc0}' <= character <= '\u{1cc7}'
    ||| character == '\u{1cd3}'
    ||| '\u{2010}' <= character <= '\u{2027}'
    ||| '\u{2030}' <= character <= '\u{2043}'
}

/// Whether the character is punctuation between `U+10FB` and `U+2043`.
fn is_punctuation_2(character: char) -> (r: bool)
    ensures
        r == punctuation_2(character),
{
    character == '\u{10fb}'
        || ('\u{1360}' <= character && character <= '\u{1368}')
        || character == '\u{1400}'
        || character == '\u{166e}'
        || ('\u{169b}' <= character && character <= '\u{169c}')
        || ('\u{16eb}' <= character && character <= '\u{16ed}')
        || ('\u{1735}' <= character && character <= '\u{1736}')
        || ('\u{17d4}' <= character && character <= '\u{17d6}')
        || ('\u{17d8}' <= character && character <= '\u{17da}')
        || ('\u{1800}' <= character && character <= '\u{180a}')
        || ('\u{1944}' <= character && character <= '\u{1945}')
        || ('\u{1a1e}' <= character && character <= '\u{1a1f}')
        || ('\u{1aa0}' <= character && character <= '\u{1aa6}')
        || ('\u{1aa8}' <= character && character <= '\u{1aad}')
        || ('\u{1b5a}' <= character && character <= '\u{1b60}')
        || ('\u{1b7d}' <= character && character <= '\u{1b7e}')
        || ('\u{1bfc}' <= character && character <= '\u{1bff}')
        || ('\u{1c3b}' <= character && character <= '\u{1c3f}')
        || ('\u{1c7e}' <= character && character <= '\u{1c7f}')
        || ('\u{1cc0}' <= character && character <= '\u{1cc7}')
        || character == '\u{1cd3}'
        || ('\u{2010}' <= character && character <= '\u{2027}')
        || ('\u{2030}' <= character && character <= '\u{2043}')
}

/// Whether the character is punctuation between `U+2045` and `U+303D`.
pub open spec fn punctuation_3(character: char) -> bool {
    ||| '\u{2045}' <= character <= '\u{2051}'
    ||| '\u{2053}' <= character <= '\u{205e}'
    ||| '\u{207d}' <= character <= '\u{207e}'
    ||| '\u{208d}' <= character <= '\u{208e}'
    ||| '\u{2308}' <= character <= '\u{230b}'
    ||| '\u{2329}' <= character <= '\u{232a}'
    ||| '\u{2768}' <= character <= '\u{2775}'
    ||| '\u{27c5}' <= character <= '\u{27c6}'
    ||| '\u{27e6}' <= character <= '\u{27ef}'
    ||| '\u{2983}' <= character <= '\u{2998}'
    ||| '\u{29d8}' <= character <= '\u{29db}'
    ||| '\u{29fc}' <= character <= '\u{29fd}'
    ||| '\u{2cf9}' <= character <= '\u{2cfc}'
    ||| '\u{2cfe}' <= character <= '\u{2cff}'
    ||| character == '\u{2d70}'
    ||| '\u{2e00}' <= character <= '\u{2e2e}'
    ||| '\u{2e30}' <= character <= '\u{2e4f}'
    ||| '\u{2e52}' <= character <= '\u{2e5d}'
    ||| '\u{3001}' <= character <= '\u{3003}'
    ||| '\u{3008}' <= character <= '\u{3011}'
    ||| '\u{3014}' <= character <= '\u{301f}'
    ||| character == '\u{3030}'
    ||| character == '\u{303d}'
}

/// Whether the character is punctuation between `U+2045` and `U+303D`.
fn is_punctuation_3(character: char) -> (r: bool)
    ensures
        r == punctuation_3(character),
{
    ('\u{2045}' <= character && character <= '\u{2051}')
        || ('\u{2053}' <= character && character <= '\u{205e}')
        || ('\u{207d}' <= character && character <= '\u{207e}')
        || ('\u{208d}' <= character && character <= '\u{208e}')
        || ('\u{2308}' <= character && character <= '\u{230b}')
        || ('\u{2329}' <= character && character <= '\u{232a}')
        || ('\u{2768}' <= character && character <= '\u{2775}')
        || ('\u{27c5}' <= character && character <= '\u{27c6}')
        || ('\u{27e6}' <= character && character <= '\u{27ef}')
        || ('\u{2983}' <= character && character <= '\u{2998}')
        || ('\u{29d8}' <= character && character <= '\u{29db}')
        || ('\u{29fc}' <= character && character <= '\u{29fd}')
        || ('\u{2cf9}' <= character && character <= '\u{2cfc}')
        || ('\u{2cfe}' <= character && character <= '\u{2cff}')
        || character == '\u{2d70}'
        || ('\u{2e00}' <= character && character <= '\u{2e2e}')
        || ('\u{2e30}' <= character && character <= '\u{2e4f}')
        || ('\u{2e52}' <= character && character <= '\u{2e5d}')
        || ('\u{3001}' <= character && character <= '\u{3003}')
        || ('\u{3008}' <= character && character <= '\u{3011}')
        || ('\u{3014}' <= character && character <= '\u{301f}')
        || character == '\u{3030}'
        || character == '\u{303d}'
}

/// Whether the character is punctuation between `U+30A0` and `U+FE61`.
pub open spec fn punctuation_4(character: char) -> bool {
    ||| character == '\u{30a0}'
    ||| character == '\u{30fb}'
    ||| '\u{a4fe}' <= character <= '\u{a4ff}'
    ||| '\u{a60d}' <= character <= '\u{a60f}'
    ||| character == '\u{a673}'
    ||| character == '\u{a67e}'
    ||| '\u{a6f2}' <= character <= '\u{a6f7}'
    ||| '\u{a874}' <= character <= '\u{a877}'
    ||| '\u{a8ce}' <= character <= '\u{a8cf}'
    ||| '\u{a8f8}' <= character <= '\u{a8fa}'
    ||| character == '\u{a8fc}'
    ||| '\u{a92e}' <= character <= '\u{a92f}'
    ||| character == '\u{a95f}'
    ||| '\u{a9c1}' <= character <= '\u{a9cd}'
    ||| '\u{a9de}' <= character <= '\u{a9df}'
    ||| '\u{aa5c}' <= character <= '\u{aa5f}'
    ||| '\u{aade}' <= character <= '\u{aadf}'
    ||| '\u{aaf0}' <= character <= '\u{aaf1}'
    ||| character == '\u{abeb}'
    ||| '\u{fd3e}' <= character <= '\u{fd3f}'
    ||| '\u{fe10}' <= character <= '\u{fe19}'
    ||| '\u{fe30}' <= character <= '\u{fe52}'
    ||| '\u{fe54}' <= character <= '\u{fe61}'
}

/// Whether the character is punctuation between `U+30A0` and `U+FE61`.
fn is_punctuation_4(character: char) -> (r: bool)
    ensures
        r == punctuation_4(character),
{
    character == '\u{30a0}'
        || character == '\u{30fb}'
        || ('\u{a4fe}' <= character && character <= '\u{a4ff}')
        || ('\u{a60d}' <= character && character <= '\u{a60f}')
        || character == '\u{a673}'
        || character == '\u{a67e}'
        || ('\u{a6f2}' <= character && character <= '\u{a6f7}')
        || ('\u{a874}' <= character && character <= '\u{a877}')
        || ('\u{a8ce}' <= character && character <= '\u{a8cf}')
        || ('\u{a8f8}' <= character && character <= '\u{a8fa}')
        || character == '\u{a8fc}'
        || ('\u{a92e}' <= character && character <= '\u{a92f}')
        || character == '\u{a95f}'
        || ('\u{a9c1}' <= character && character <= '\u{a9cd}')
        || ('\u{a9de}' <= character && character <= '\u{a9df}')
        || ('\u{aa5c}' <= character && character <= '\u{aa5f}')
        || ('\u{aade}' <= character && character <= '\u{aadf}')
        || ('\u{aaf0}' <= character && character <= '\u{aaf1}')
        || character == '\u{abeb}'
        || ('\u{fd3e}' <= character && character <= '\u{fd3f}')
        || ('\u{fe10}' <= character && character <= '\u{fe19}')
        || ('\u{fe30}' <= character && character <= '\u{fe52}')
        || ('\u{fe54}' <= character && character <= '\u{fe61}')
}

/// Whether the character is punctuation between `U+FE63` and `U+10AF6`.
pub open spec fn punctuation_5(character: char) -> bool {
    ||| character == '\u{fe63}'
    ||| character == '\u{fe68}'
    ||| '\u{fe6a}' <= character <= '\u{fe6b}'
    ||| '\u{ff01}' <= character <= '\u{ff03}'
    ||| '\u{ff05}' <= character <= '\u{ff0a}'
    ||| '\u{ff0c}' <= character <= '\u{ff0f}'
    ||| '\u{ff1a}' <= character <= '\u{ff1b}'
    ||| '\u{ff1f}' <= character <= '\u{ff20}'
    ||| '\u{ff3b}' <= character <= '\u{ff3d}'
    ||| character == '\u{ff3f}'
    ||| character == '\u{ff5b}'
    ||| character == '\u{ff5d}'
    ||| '\u{ff5f}' <= character <= '\u{ff65}'
    ||| '\u{10100}' <= character <= '\u{10102}'
    ||| character == '\u{1039f}'
    ||| character == '\u{103d0}'
    ||| character == '\u{1056f}'
    ||| character == '\u{10857}'
    ||| character == '\u{1091f}'
    ||| character == '\u{1093f}'
    ||| '\u{10a50}' <= character <= '\u{10a58}'
    ||| character == '\u{10a7f}'
    ||| '\u{10af0}' <= character <= '\u{10af6}'
}

/// Whether the character is punctuation between `U+FE63` and `U+10AF6`.
fn is_punctuation_5(character: char) -> (r: bool)
    ensures
        r == punctuation_5(character),
{
    character == '\u{fe63}'
        || character == '\u{fe68}'
        || ('\u{fe6a}' <= character && character <= '\u{fe6b}')
        || ('\u{ff01}' <= character && character <= '\u{ff03}')
        || ('\u{ff05}' <= character && character <= '\u{ff0a}')
        || ('\u{ff0c}' <= character && character <= '\u{ff0f}')
        || ('\u{ff1a}' <= character && character <= '\u{ff1b}')
        || ('\u{ff1f}' <= character && character <= '\u{ff20}')
        || ('\u{ff3b}' <= character && character <= '\u{ff3d}')
        || character == '\u{ff3f}'
        || character == '\u{ff5b}'
        || character == '\u{ff5d}'
        || ('\u{ff5f}' <= character && character <= '\u{ff65}')
        || ('\u{10100}' <= character && character <= '\u{10102}')
        || character == '\u{1039f}'
        || character == '\u{103d0}'
        || character == '\u{1056f}'
        || character == '\u{10857}'
        || character == '\u{1091f}'
        || character == '\u{1093f}'
        || ('\u{10a50}' <= character && character <= '\u{10a58}')
        || character == '\u{10a7f}'
        || ('\u{10af0}' <= character && character <= '\u{10af6}')
}

/// Whether the character is punctuation between `U+10B39` and `U+1166C`.
pub open spec fn punctuation_6(character: char) -> bool {
    ||| '\u{10b39}' <= character <= '\u{10b3f}'
    ||| '\u{10b99}' <= character <= '\u{10b9c}'
    ||| character == '\u{10ead}'
    ||| '\u{10f55}' <= character <= '\u{10f59}'
    ||| '\u{10f86}' <= character <= '\u{10f89}'
    ||| '\u{11047}' <= character <= '\u{1104d}'
    ||| '\u{110bb}' <= character <= '\u{110bc}'
    ||| '\u{110be}' <= character <= '\u{110c1}'
    ||| '\u{11140}' <= character <= '\u{11143}'
    ||| '\u{11174}' <= character <= '\u{11175}'
    ||| '\u{111c5}' <= character <= '\u{111c8}'
    ||| character == '\u{111cd}'
    ||| character == '\u{111db}'
    ||| '\u{111dd}' <= character <= '\u{111df}'
    ||| '\u{11238}' <= character <= '\u{1123d}'
    ||| character == '\u{112a9}'
    ||| '\u{1144b}' <= character <= '\u{1144f}'
    ||| '\u{1145a}' <= character <= '\u{1145b}'
    ||| character == '\u{1145d}'
    ||| character == '\u{114c6}'
    ||| '\u{115c1}' <= character <= '\u{115d7}'
    ||| '\u{11641}' <= character <= '\u{11643}'
    ||| '\u{11660}' <= character <= '\u{1166c}'
}

/// Whether the character is punctuation between `U+10B39` and `U+1166C`.
fn is_punctuation_6(character: char) -> (r: bool)
    ensures
        r == punctuation_6(character),
{
    ('\u{10b39}' <= character && character <= '\u{10b3f}')
        || ('\u{10b99}' <= character && character <= '\u{10b9c}')
        || character == '\u{10ead}'
        || ('\u{10f55}' <= character && character <= '\u{10f59}')
        || ('\u{10f86}' <= character && character <= '\u{10f89}')
        || ('\u{11047}' <= character && character <= '\u{1104d}')
        || ('\u{110bb}' <= character && character <= '\u{110bc}')
        || ('\u{110be}' <= character && character <= '\u{110c1}')
        || ('\u{11140}' <= character && character <= '\u{11143}')
        || ('\u{11174}' <= character && character <= '\u{11175}')
        || ('\u{111c5}' <= character && character <= '\u{111c8}')
        || character == '\u{111cd}'
        || character == '\u{111db}'
        || ('\u{111dd}' <= character && character <= '\u{111df}')
        || ('\u{11238}' <= character && character <= '\u{1123d}')
        || character == '\u{112a9}'
        || ('\u{1144b}' <= character && character <= '\u{1144f}')
        || ('\u{1145a}' <= character && character <= '\u{1145b}')
        || character == '\u{1145d}'
        || character == '\u{114c6}'
        || ('\u{115c1}' <= character && character <= '\u{115d7}')
        || ('\u{11641}' <= character && character <= '\u{11643}')
        || ('\u{11660}' <= character && character <= '\u{1166c}')
}

/// Whether the character is punctuation between `U+116B9` and `U+1E95F`.
pub open spec fn punctuation_7(character: char) -> bool {
    ||| character == '\u{116b9}'
    ||| '\u{1173c}' <= character <= '\u{1173e}'
    ||| character == '\u{1183b}'
    ||| '\u{11944}' <= character <= '\u{11946}'
    ||| character == '\u{119e2}'
    ||| '\u{11a3f}' <= character <= '\u{11a46}'
    ||| '\u{11a9a}' <= character <= '\u{11a9c}'
    ||| '\u{11a9e}' <= character <= '\u{11aa2}'
    ||| '\u{11c41}' <= character <= '\u{11c45}'
    ||| '\u{11c70}' <= character <= '\u{11c71}'
    ||| '\u{11ef7}' <= character <= '\u{11ef8}'
    ||| character == '\u{11fff}'
    ||| '\u{12470}' <= character <= '\u{12474}'
    ||| '\u{12ff1}' <= character <= '\u{12ff2}'
    ||| '\u{16a6e}' <= character <= '\u{16a6f}'
    ||| character == '\u{16af5}'
    ||| '\u{16b37}' <= character <= '\u{16b3b}'
    ||| character == '\u{16b44}'
    ||| '\u{16e97}' <= character <= '\u{16e9a}'
    ||| character == '\u{16fe2}'
    ||| character == '\u{1bc9f}'
    ||| '\u{1da87}' <= character <= '\u{1da8b}'
    ||| '\u{1e95e}' <= character <= '\u{1e95f}'
}

/// Whether the character is punctuation between `U+116B9` and `U+1E95F`.
fn is_punctuation_7(character: char) -> (r: bool)
    ensures
        r == punctuation_7(character),
{
    character == '\u{116b9}'
        || ('\u{1173c}' <= character && character <= '\u{1173e}')
        || character == '\u{1183b}'
        || ('\u{11944}' <= character && character <= '\u{11946}')
        || character == '\u{119e2}'
        || ('\u{11a3f}' <= character && character <= '\u{11a46}')
        || ('\u{11a9a}' <= character && character <= '\u{11a9c}')
        || ('\u{11a9e}' <= character && character <= '\u{11aa2}')
        || ('\u{11c41}' <= character && character <= '\u{11c45}')
        || ('\u{11c70}' <= character && character <= '\u{11c71}')
        || ('\u{11ef7}' <= character && character <= '\u{11ef8}')
        || character == '\u{11fff}'
        || ('\u{12470}' <= character && character <= '\u{12474}')
        || ('\u{12ff1}' <= character && character <= '\u{12ff2}')
        || ('\u{16a6e}' <= character && character <= '\u{16a6f}')
        || character == '\u{16af5}'
        || ('\u{16b37}' <= character && character <= '\u{16b3b}')
        || character == '\u{16b44}'
        || ('\u{16e97}' <= character && character <= '\u{16e9a}')
        || character == '\u{16fe2}'
        || character == '\u{1bc9f}'
        || ('\u{1da87}' <= character && character <= '\u{1da8b}')
        || ('\u{1e95e}' <= character && character <= '\u{1e95f}')
}

/// Whether the character is punctuation: ASCII punctuation, or a character
/// of one of the general categories of punctuation of Unicode (connector,
/// dash, open, close, initial quote, final quote, other).
pub open spec fn is_punctuation(character: char) -> bool {
    ||| punctuation_0(character)
    ||| punctuation_1(character)
    ||| punctuation_2(character)
    ||| punctuation_3(character)
    ||| punctuation_4(character)
    ||| punctuation_5(character)
    ||| punctuation_6(character)
    ||| punctuation_7(character)
}

/// Whether the character is punctuation.
pub fn is_unicode_punctuation(character: char) -> (r: bool)
    ensures
        r == is_punctuation(character),
{
    is_punctuation_0(character)
        || is_punctuation_1(character)
        || is_punctuation_2(character)
        || is_punctuation_3(character)
        || is_punctuation_4(character)
        || is_punctuation_5(character)
        || is_punctuation_6(character)
        || is_punctuation_7(character)
}

/// The kind of a code: the end of the input, line endings and padding count
/// as whitespace.
pub open spec fn group_of(code: Code) -> GroupKind {
    match code {
        Code::End | Code::CarriageReturnLineFeed | Code::VirtualSpace => GroupKind::Whitespace,
        Code::Char(character) => if is_whitespace(character) {
            GroupKind::Whitespace
        } else if is_punctuation(character) {
            GroupKind::Punctuation
        } else {
            GroupKind::Other
        },
    }
}

/// Classify whether a character code represents whitespace, punctuation, or
/// something else.
pub fn classify_character(code: Code) -> (kind: GroupKind)
    ensures
        kind == group_of(code),
{
    match code {
        Code::End | Code::CarriageReturnLineFeed | Code::VirtualSpace => GroupKind::Whitespace,
        Code::Char(character) => {
            if ('\u{9}' <= character && character <= '\u{d}') || character == ' ' || character
                == '\u{85}' || character == '\u{a0}' || character == '\u{1680}' || ('\u{2000}'
                <= character && character <= '\u{200a}') || character == '\u{2028}' || character
                == '\u{2029}' || character == '\u{202f}' || character == '\u{205f}' || character
                == '\u{3000}' {
                GroupKind::Whitespace
            } else if is_unicode_punctuation(character) {
                GroupKind::Punctuation
            } else {
                GroupKind::Other
            }
        },
    }
}

/// Whether a run can open, given the kinds of what stands before and after
/// it.
pub open spec fn opens(marker: MarkerKind, before: GroupKind, after: GroupKind) -> bool {
    let open = after == GroupKind::Other || (after == GroupKind::Punctuation && before
        != GroupKind::Other);
    let close = before == GroupKind::Other || (before == GroupKind::Punctuation && after
        != GroupKind::Other);
    match marker {
        MarkerKind::Asterisk => open,
        MarkerKind::Underscore => open && (before != GroupKind::Other || !close),
    }
}

/// Whether a run can close, given the kinds of what stands before and after
/// it.
pub open spec fn closes(marker: MarkerKind, before: GroupKind, after: GroupKind) -> bool {
    let open = after == GroupKind::Other || (after == GroupKind::Punctuation && before
        != GroupKind::Other);
    let close = before == GroupKind::Other || (before == GroupKind::Punctuation && after
        != GroupKind::Other);
    match marker {
        MarkerKind::Asterisk => close,
        MarkerKind::Underscore => close && (after != GroupKind::Other || !open),
    }
}

/// Whether a run can open and whether it can close.
pub fn flank(marker: MarkerKind, before: GroupKind, after: GroupKind) -> (r: (bool, bool))
    ensures
        r.0 == opens(marker, before, after),
        r.1 == closes(marker, before, after),
{
    let before_other = match before {
        GroupKind::Other => true,
        _ => false,
    };
    let before_punctuation = match before {
        GroupKind::Punctuation => true,
        _ => false,
    };
    let after_other = match after {
        GroupKind::Other => true,
        _ => false,
    };
    let after_punctuation = match after {
        GroupKind::Punctuation => true,
        _ => false,
    };
    let open = after_other || (after_punctuation && !before_other);
    let close = before_other || (before_punctuation && !after_other);
    match marker {
        MarkerKind::Asterisk => (open, close),
        MarkerKind::Underscore => (open && (!before_other || !close), close && (!after_other
            || !open)),
    }
}


/// Attention sequence that we can take markers from.
#[derive(Debug, Clone, Copy, PartialEq, Eq, Structural)]
pub struct Sequence {
    /// Marker used in this sequence.
    pub marker: MarkerKind,
    /// Index of the enter of the sequence in the events.
    pub event_index: usize,
    /// Depth at which the sequence lies in the events.
    pub balance: usize,
    /// Where the markers that are left start.
    pub start_point: Point,
    /// Where the markers that are left start, in the stream.
    pub start_index: usize,
    /// Where the markers that are left end.
    pub end_point: Point,
    /// Where the markers that are left end, in the stream.
    pub end_index: usize,
    /// Number of markers that are left.
    pub size: usize,
    /// Whether this sequence can open attention.
    pub open: bool,
    /// Whether this sequence can close attention.
    pub close: bool,
}

impl Sequence {
    /// The markers that are left lie on one line, side by side, one column
    /// and one byte each, and a sequence without markers pairs no more.
    pub open spec fn wf(&self) -> bool {
        &&& self.start_index + self.size == self.end_index
        &&& self.start_point.line == self.end_point.line
        &&& self.start_point.column + self.size == self.end_point.column
        &&& self.start_point.offset + self.size == self.end_point.offset
        &&& self.size == 0 ==> !self.open && !self.close
    }

    /// The sequence after `take` markers were taken from its start.
    pub open spec fn taken_from_start(self, take: usize) -> Sequence {
        let size = (self.size - take) as usize;
        Sequence {
            size,
            start_point: Point {
                line: self.start_point.line,
                column: (self.start_point.column + take) as usize,
                offset: (self.start_point.offset + take) as usize,
            },
            start_index: (self.start_index + take) as usize,
            open: self.open && size > 0,
            close: self.close && size > 0,
            ..self
        }
    }

    /// The sequence after `take` markers were taken from its end.
    pub open spec fn taken_from_end(self, take: usize) -> Sequence {
        let size = (self.size - take) as usize;
        Sequence {
            size,
            end_point: Point {
                line: self.end_point.line,
                column: (self.end_point.column - take) as usize,
                offset: (self.end_point.offset - take) as usize,
            },
            end_index: (self.end_index - take) as usize,
            open: self.open && size > 0,
            close: self.close && size > 0,
            ..self
        }
    }
}

/// Depth after the first `upto` events: the number of spans that are open,
/// never below zero.
pub open spec fn depth(events: Seq<Event>, upto: int) -> nat
    decreases upto,
{
    if upto <= 0 {
        0
    } else {
        let before = depth(events, upto - 1);
        match events[upto - 1].event_type {
            EventType::Enter => before + 1,
            EventType::Exit => if before > 0 {
                (before - 1) as nat
            } else {
                0
            },
        }
    }
}

/// The marker that a code stands for, if any.
pub open spec fn marker_of(code: Code) -> Option<MarkerKind> {
    if code == Code::Char('*') {
        Some(MarkerKind::Asterisk)
    } else if code == Code::Char('_') {
        Some(MarkerKind::Underscore)
    } else {
        None
    }
}

/// The code at `index`: the end of the input beyond the stream.
pub open spec fn code_at(codes: Seq<Code>, index: int) -> Code {
    if 0 <= index < codes.len() {
        codes[index]
    } else {
        Code::End
    }
}

/// The attention sequence that starts with the event at `at`, if there is
/// one: an enter directly followed by its exit, over one or more markers of
/// one kind that lie side by side on one line.
pub open spec fn sequence_at(events: Seq<Event>, codes: Seq<Code>, at: int) -> Option<Sequence> {
    if 0 <= at && at + 1 < events.len() {
        let enter = events[at];
        let exit = events[at + 1];
        let size = exit.index - enter.index;
        if enter.event_type == EventType::Enter && enter.token_type == TokenType::AttentionSequence
            && exit.event_type == EventType::Exit && exit.token_type
            == TokenType::AttentionSequence && enter.index < exit.index && exit.index
            <= codes.len() && marker_of(codes[enter.index as int]) is Some && enter.point.line
            == exit.point.line && enter.point.column + size == exit.point.column
            && enter.point.offset + size == exit.point.offset {
            let marker = marker_of(codes[enter.index as int])->0;
            let before = group_of(code_at(codes, enter.index - 1));
            let after = group_of(code_at(codes, exit.index as int));
            Some(
                Sequence {
                    marker,
                    event_index: at as usize,
                    balance: depth(events, at + 1) as usize,
                    start_point: enter.point,
                    start_index: enter.index,
                    end_point: exit.point,
                    end_index: exit.index,
                    size: size as usize,
                    open: opens(marker, before, after),
                    close: closes(marker, before, after),
                },
            )
        } else {
            None
        }
    } else {
        None
    }
}

/// Whether the sequence stands for an enter and its exit in the events that
/// lie as many markers apart as the sequence is long.
pub open spec fn stands_for(events: Seq<Event>, sequence: Sequence) -> bool {
    let enter = events[sequence.event_index as int];
    let exit = events[sequence.event_index + 1];
    &&& sequence.event_index + 1 < events.len()
    &&& enter.index + sequence.size == exit.index
    &&& enter.point.column + sequence.size == exit.point.column
    &&& enter.point.offset + sequence.size == exit.point.offset
}

/// The attention sequences among the first `upto` events, in their order.
pub open spec fn sequences_of(events: Seq<Event>, codes: Seq<Code>, upto: int) -> Seq<Sequence>
    decreases upto,
{
    if upto <= 0 {
        Seq::empty()
    } else {
        match sequence_at(events, codes, upto - 1) {
            Some(sequence) => sequences_of(events, codes, upto - 1).push(sequence),
            None => sequences_of(events, codes, upto - 1),
        }
    }
}

/// Depth never exceeds the number of events.
pub proof fn lemma_depth_bounds(events: Seq<Event>, upto: int)
    ensures
        depth(events, upto) <= if upto > 0 {
            upto
        } else {
            0
        },
    decreases upto,
{
    if upto > 0 {
        lemma_depth_bounds(events, upto - 1);
    }
}

/// Find the attention sequences and information about them.
pub fn get_sequences(events: &Vec<Event>, codes: &Vec<Code>) -> (sequences: Vec<Sequence>)
    ensures
        sequences@ == sequences_of(events@, codes@, events.len() as int),
        forall|i: int| 0 <= i < sequences.len() ==> (#[trigger] sequences[i]).wf(),
        forall|i: int| 0 <= i < sequences.len() ==> stands_for(events@, #[trigger] sequences[i]),
        forall|i: int, j: int|
            0 <= i < j < sequences.len() ==> (#[trigger] sequences[i]).event_index + 1 < (
            #[trigger] sequences[j]).event_index,
{
    let mut sequences: Vec<Sequence> = Vec::new();
    let mut start: usize = 0;
    let mut balance: usize = 0;
    while start < events.len()
        invariant
            start <= events.len(),
            balance == depth(events@, start as int),
            sequences@ == sequences_of(events@, codes@, start as int),
            forall|i: int| 0 <= i < sequences.len() ==> (#[trigger] sequences[i]).wf(),
            forall|i: int|
                0 <= i < sequences.len() ==> (#[trigger] sequences[i]).event_index < start,
            forall|i: int|
                0 <= i < sequences.len() ==> stands_for(events@, #[trigger] sequences[i]),
            forall|i: int, j: int|
                0 <= i < j < sequences.len() ==> (#[trigger] sequences[i]).event_index + 1 < (
                #[trigger] sequences[j]).event_index,
            sequences.len() > 0 && start > 0 && sequences@.last().event_index == start - 1
                ==> events[start as int].event_type == EventType::Exit,
        decreases events.len() - start,
    {
        let enter = events[start];
        proof {
            lemma_depth_bounds(events@, start as int);
        }
        match enter.event_type {
            EventType::Enter => {
                balance += 1;
                let found = match enter.token_type {
                    TokenType::AttentionSequence => start + 1 < events.len(),
                    _ => false,
                };
                if found {
                    let exit = events[start + 1];
                    let closed = match (exit.event_type, exit.token_type) {
                        (EventType::Exit, TokenType::AttentionSequence) => true,
                        _ => false,
                    };
                    if closed && enter.index < exit.index && exit.index <= codes.len()
                        && enter.point.line == exit.point.line && exit.point.column
                        >= enter.point.column && exit.point.offset >= enter.point.offset {
                        let size = exit.index - enter.index;
                        let marker = match codes[enter.index] {
                            Code::Char(character) => if character == '*' {
                                Some(MarkerKind::Asterisk)
                            } else if character == '_' {
                                Some(MarkerKind::Underscore)
                            } else {
                                None
                            },
                            _ => None,
                        };
                        match marker {
                            Some(marker) => {
                                if exit.point.column - enter.point.column == size
                                    && exit.point.offset - enter.point.offset == size {
                                    let before = classify_character(
                                        if enter.index > 0 {
                                            codes[enter.index - 1]
                                        } else {
                                            Code::End
                                        },
                                    );
                                    let after = classify_character(
                                        if exit.index < codes.len() {
                                            codes[exit.index]
                                        } else {
                                            Code::End
                                        },
                                    );
                                    let (open, close) = flank(marker, before, after);
                                    sequences.push(
                                        Sequence {
                                            marker,
                                            event_index: start,
                                            balance,
                                            start_point: enter.point,
                                            start_index: enter.index,
                                            end_point: exit.point,
                                            end_index: exit.index,
                                            size,
                                            open,
                                            close,
                                        },
                                    );
                                }
                            },
                            None => {},
                        }
                    }
                }
            },
            EventType::Exit => {
                if balance > 0 {
                    balance -= 1;
                }
            },
        }
        start += 1;
    }
    sequences
}


/// The rule of three: where the opening sequence can also close or the
/// closing sequence can also open, and the size of the closing sequence is no
/// multiple of three, but the sum of the sizes of the two is, the two do not
/// pair.
#[verifier::opaque]
pub open spec fn ruled_out(open: Sequence, close: Sequence) -> bool {
    (open.close || close.open) && close.size % 3 != 0 && (open.size + close.size) % 3 == 0
}

/// Whether `open` can open what `close` closes: it can open, is made of the
/// same marker, lies at the same depth, and is not ruled out by the sizes.
pub open spec fn pairs_with(open: Sequence, close: Sequence) -> bool {
    &&& open.open
    &&& open.size > 0
    &&& open.marker == close.marker
    &&& open.balance == close.balance
    &&& !ruled_out(open, close)
}

/// The nearest sequence before `before` that pairs with the sequence at
/// `close`, if there is one.
pub open spec fn opener_for(sequences: Seq<Sequence>, close: int, before: int) -> Option<int>
    decreases before,
{
    if before <= 0 || before > sequences.len() {
        None
    } else if pairs_with(sequences[before - 1], sequences[close]) {
        Some(before - 1)
    } else {
        opener_for(sequences, close, before - 1)
    }
}

/// Number of markers that a pair uses up of either sequence: two, for
/// strong, where both have them, and else one, for emphasis.
pub open spec fn take_of(open: Sequence, close: Sequence) -> usize {
    if open.size > 1 && close.size > 1 {
        2
    } else {
        1
    }
}

/// The sequences after those at `open` and `close` were paired: the markers
/// are taken from the end of the one and the start of the other, and no
/// sequence between the two can open any more, so that no attention
/// overlaps.
pub open spec fn paired(sequences: Seq<Sequence>, open: int, close: int) -> Seq<Sequence> {
    let take = take_of(sequences[open], sequences[close]);
    Seq::new(
        sequences.len(),
        |i: int|
            if i == open {
                sequences[i].taken_from_end(take)
            } else if i == close {
                sequences[i].taken_from_start(take)
            } else if open < i < close {
                Sequence { open: false, ..sequences[i] }
            } else {
                sequences[i]
            },
    )
}

/// What pairing makes of the sequences, from the sequence at `close` on:
/// the sequences as they end up, and for each sequence the numbers of
/// markers taken from it, pair by pair, as a closing and as an opening
/// sequence.
///
/// A sequence that can close is paired with its nearest opener again and
/// again, until it has no markers left or finds no opener.
pub open spec fn resolved(
    sequences: Seq<Sequence>,
    closings: Seq<Seq<usize>>,
    openings: Seq<Seq<usize>>,
    close: int,
) -> (Seq<Sequence>, Seq<Seq<usize>>, Seq<Seq<usize>>)
    decreases sequences.len() - close,
        if 0 <= close < sequences.len() {
            sequences[close].size
        } else {
            0
        },
{
    if close < 0 || close >= sequences.len() {
        (sequences, closings, openings)
    } else {
        let closer = sequences[close];
        match opener_for(sequences, close, close) {
            Some(open) => if closer.close && closer.size > 0 && 0 <= open < close {
                let take = take_of(sequences[open], closer);
                let next = paired(sequences, open, close);
                resolved(
                    next,
                    closings.update(close, closings[close].push(take)),
                    openings.update(open, openings[open].push(take)),
                    if next[close].size > 0 {
                        close
                    } else {
                        close + 1
                    },
                )
            } else {
                resolved(sequences, closings, openings, close + 1)
            },
            None => resolved(sequences, closings, openings, close + 1),
        }
    }
}

/// What is found is a sequence before `before` that pairs, and nothing
/// nearer does.
pub proof fn lemma_opener_for(sequences: Seq<Sequence>, close: int, before: int)
    requires
        0 <= before <= sequences.len(),
    ensures
        match opener_for(sequences, close, before) {
            Some(open) => {
                &&& 0 <= open < before
                &&& pairs_with(sequences[open], sequences[close])
                &&& forall|i: int| open < i < before ==> !pairs_with(sequences[i], sequences[close])
            },
            None => forall|i: int| 0 <= i < before ==> !pairs_with(sequences[i], sequences[close]),
        },
    decreases before,
{
    if before > 0 && !pairs_with(sequences[before - 1], sequences[close]) {
        lemma_opener_for(sequences, close, before - 1);
    }
}

/// The lists of numbers behind the lists.
pub open spec fn views(lists: Seq<Vec<usize>>) -> Seq<Seq<usize>> {
    lists.map_values(|list: Vec<usize>| list@)
}

/// Whether the rule of three keeps the two from pairing.
pub fn is_ruled_out(open: Sequence, close: Sequence) -> (r: bool)
    ensures
        r == ruled_out(open, close),
{
    reveal(ruled_out);
    let sum = open.size % 3 + close.size % 3;
    (open.close || close.open) && close.size % 3 != 0 && sum % 3 == 0
}

/// Find the nearest sequence before the one at `close` that pairs with it.
pub fn find_opener(sequences: &Vec<Sequence>, close: usize) -> (r: Option<usize>)
    requires
        close < sequences.len(),
    ensures
        match r {
            Some(open) => opener_for(sequences@, close as int, close as int) == Some(open as int),
            None => opener_for(sequences@, close as int, close as int) is None,
        },
{
    let closer = sequences[close];
    let mut open = close;
    while open > 0
        invariant
            open <= close < sequences.len(),
            closer == sequences[close as int],
            opener_for(sequences@, close as int, open as int) == opener_for(
                sequences@,
                close as int,
                close as int,
            ),
        decreases open,
    {
        open -= 1;
        let opener = sequences[open];
        let same_marker = match (opener.marker, closer.marker) {
            (MarkerKind::Asterisk, MarkerKind::Asterisk) => true,
            (MarkerKind::Underscore, MarkerKind::Underscore) => true,
            _ => false,
        };
        // We found a sequence that can open the closer we found.
        if opener.open && opener.size > 0 && same_marker && opener.balance == closer.balance {
            // If the opening can close or the closing can open, and the
            // close size *is not* a multiple of three, but the sum of the
            // opening and closing size *is* multiple of three, then
            // **don't** match.
            if !is_ruled_out(opener, closer) {
                return Some(open);
            }
        }
    }
    None
}


/// Number of markers taken in all.
pub open spec fn total(takes: Seq<usize>) -> int
    decreases takes.len(),
{
    if takes.len() == 0 {
        0
    } else {
        total(takes.drop_last()) + takes.last()
    }
}

/// One more take adds to the total.
pub proof fn lemma_total_push(takes: Seq<usize>, take: usize)
    ensures
        total(takes.push(take)) == total(takes) + take,
{
    assert(takes.push(take).drop_last() =~= takes);
}

/// The total of the first takes is no more than the total of all.
pub proof fn lemma_total_partial(takes: Seq<usize>, count: int)
    requires
        0 <= count <= takes.len(),
    ensures
        0 <= total(takes.take(count)) <= total(takes),
    decreases takes.len() - count,
{
    if count == takes.len() {
        assert(takes.take(count) =~= takes);
        lemma_total_nonnegative(takes);
    } else {
        lemma_total_partial(takes, count + 1);
        assert(takes.take(count + 1).drop_last() =~= takes.take(count));
        lemma_total_nonnegative(takes.take(count));
    }
}

/// A total is never negative.
pub proof fn lemma_total_nonnegative(takes: Seq<usize>)
    ensures
        0 <= total(takes),
    decreases takes.len(),
{
    if takes.len() > 0 {
        lemma_total_nonnegative(takes.drop_last());
    }
}

/// Whether `now` is what is left of the sequence `then` after the given
/// markers were taken from its start and its end: no marker is lost.
pub open spec fn accounts(
    then: Sequence,
    now: Sequence,
    closings: Seq<usize>,
    openings: Seq<usize>,
) -> bool {
    &&& now.event_index == then.event_index
    &&& now.marker == then.marker
    &&& now.balance == then.balance
    &&& now.start_index == then.start_index + total(closings)
    &&& now.end_index + total(openings) == then.end_index
    &&& total(closings) + now.size + total(openings) == then.size
}

/// Put `take` on record at the end of the list at `at`.
fn push_take(lists: &mut Vec<Vec<usize>>, at: usize, take: usize)
    requires
        at < old(lists).len(),
    ensures
        final(lists).len() == old(lists).len(),
        views(final(lists)@) == views(old(lists)@).update(
            at as int,
            views(old(lists)@)[at as int].push(take),
        ),
{
    let mut list: Vec<usize> = Vec::new();
    std::mem::swap(&mut list, &mut lists[at]);
    list.push(take);
    lists[at] = list;
    proof {
        assert(views(lists@) =~= views(old(lists)@).update(
            at as int,
            views(old(lists)@)[at as int].push(take),
        ));
    }
}

/// As many empty lists as asked for.
fn blank_lists(len: usize) -> (lists: Vec<Vec<usize>>)
    ensures
        lists.len() == len,
        views(lists@) == Seq::new(len as nat, |i: int| Seq::<usize>::empty()),
{
    let mut lists: Vec<Vec<usize>> = Vec::new();
    while lists.len() < len
        invariant
            lists.len() <= len,
            forall|i: int| 0 <= i < lists.len() ==> (#[trigger] lists[i])@ == Seq::<usize>::empty(),
        decreases len - lists.len(),
    {
        lists.push(Vec::new());
    }
    proof {
        assert(views(lists@) =~= Seq::new(len as nat, |i: int| Seq::<usize>::empty()));
    }
    lists
}

/// Pair the sequences at `open` and `close`, and return the number of
/// markers that the pair uses up of either.
///
/// The pair obeys the rule of three.  One marker makes emphasis, two make
/// strong.
pub fn pair(sequences: &mut Vec<Sequence>, open: usize, close: usize) -> (take: usize)
    requires
        open < close < old(sequences).len(),
        forall|i: int| 0 <= i < old(sequences).len() ==> (#[trigger] old(sequences)[i]).wf(),
        pairs_with(old(sequences)[open as int], old(sequences)[close as int]),
        old(sequences)[close as int].size > 0,
    ensures
        take == take_of(old(sequences)[open as int], old(sequences)[close as int]),
        1 <= take <= 2,
        final(sequences)@ == paired(old(sequences)@, open as int, close as int),
        forall|i: int| 0 <= i < final(sequences).len() ==> (#[trigger] final(sequences)[i]).wf(),
        !ruled_out(old(sequences)[open as int], old(sequences)[close as int]),
{
    let take: usize = if sequences[open].size > 1 && sequences[close].size > 1 {
        2
    } else {
        1
    };
    // We're *on* a closing sequence, with a matching opening sequence.
    // Now we make sure that we can't have misnested attention: mark
    // everything between as no longer possible to open anything.
    close_between(sequences, open, close);
    sequences[close] = take_from_start(sequences[close], take);
    sequences[open] = take_from_end(sequences[open], take);
    proof {
        assert(sequences@ =~= paired(old(sequences)@, open as int, close as int));
    }
    take
}

/// Mark the sequences between the two as no longer able to open.
fn close_between(sequences: &mut Vec<Sequence>, open: usize, close: usize)
    requires
        open < close < old(sequences).len(),
    ensures
        final(sequences).len() == old(sequences).len(),
        forall|i: int|
            0 <= i < final(sequences).len() ==> #[trigger] final(sequences)[i] == if open < i
                < close {
                Sequence { open: false, ..old(sequences)[i] }
            } else {
                old(sequences)[i]
            },
{
    let mut between = open + 1;
    while between < close
        invariant
            open < between <= close < sequences.len(),
            sequences.len() == old(sequences).len(),
            forall|i: int|
                0 <= i < sequences.len() ==> #[trigger] sequences[i] == if open < i < between {
                    Sequence { open: false, ..old(sequences)[i] }
                } else {
                    old(sequences)[i]
                },
        decreases close - between,
    {
        let mut sequence = sequences[between];
        sequence.open = false;
        sequences[between] = sequence;
        between += 1;
    }
}

/// Take markers from the start of a sequence.
fn take_from_start(sequence: Sequence, take: usize) -> (r: Sequence)
    requires
        sequence.wf(),
        1 <= take <= sequence.size,
    ensures
        r == sequence.taken_from_start(take),
        r.wf(),
{
    let mut closer = sequence;
    closer.size -= take;
    closer.start_point.column += take;
    closer.start_point.offset += take;
    closer.start_index += take;
    if closer.size == 0 {
        closer.open = false;
        closer.close = false;
    }
    closer
}

/// Take markers from the end of a sequence.
fn take_from_end(sequence: Sequence, take: usize) -> (r: Sequence)
    requires
        sequence.wf(),
        1 <= take <= sequence.size,
    ensures
        r == sequence.taken_from_end(take),
        r.wf(),
{
    let mut opener = sequence;
    opener.size -= take;
    opener.end_point.column -= take;
    opener.end_point.offset -= take;
    opener.end_index -= take;
    if opener.size == 0 {
        opener.open = false;
        opener.close = false;
    }
    opener
}

/// Walk through the sequences and pair them.
///
/// Returns, for each sequence, the numbers of markers taken from it, pair by
/// pair: as a closing sequence, from its start, and as an opening sequence,
/// from its end.
pub fn match_sequences(sequences: &mut Vec<Sequence>) -> (takes: (Vec<Vec<usize>>, Vec<Vec<usize>>))
    requires
        forall|i: int| 0 <= i < old(sequences).len() ==> (#[trigger] old(sequences)[i]).wf(),
    ensures
        (final(sequences)@, views(takes.0@), views(takes.1@)) == resolved(
            old(sequences)@,
            Seq::new(old(sequences).len() as nat, |i: int| Seq::<usize>::empty()),
            Seq::new(old(sequences).len() as nat, |i: int| Seq::<usize>::empty()),
            0,
        ),
        final(sequences).len() == old(sequences).len(),
        takes.0.len() == old(sequences).len(),
        takes.1.len() == old(sequences).len(),
        forall|i: int| 0 <= i < final(sequences).len() ==> (#[trigger] final(sequences)[i]).wf(),
        forall|i: int|
            0 <= i < final(sequences).len() ==> accounts(
                old(sequences)[i],
                #[trigger] final(sequences)[i],
                views(takes.0@)[i],
                views(takes.1@)[i],
            ),
{
    let mut closings = blank_lists(sequences.len());
    let mut openings = blank_lists(sequences.len());
    let mut close: usize = 0;
    let ghost blank = Seq::new(old(sequences).len() as nat, |i: int| Seq::<usize>::empty());
    while close < sequences.len()
        invariant
            close <= sequences.len(),
            sequences.len() == old(sequences).len(),
            closings.len() == sequences.len(),
            openings.len() == sequences.len(),
            forall|i: int| 0 <= i < sequences.len() ==> (#[trigger] sequences[i]).wf(),
            forall|i: int|
                0 <= i < sequences.len() ==> accounts(
                    old(sequences)[i],
                    #[trigger] sequences[i],
                    views(closings@)[i],
                    views(openings@)[i],
                ),
            resolved(sequences@, views(closings@), views(openings@), close as int) == resolved(
                old(sequences)@,
                blank,
                blank,
                0,
            ),
        decreases
                sequences.len() - close,
                if close < sequences.len() {
                    sequences[close as int].size
                } else {
                    0
                },
    {
        let closer = sequences[close];
        let mut next = close + 1;
        // Find a sequence that can close.
        if closer.close && closer.size > 0 {
            proof {
                lemma_opener_for(sequences@, close as int, close as int);
            }
            match find_opener(sequences, close) {
                Some(open) => {
                    // We've found a match!
                    let ghost before = sequences@;
                    let ghost closed = views(closings@);
                    let ghost opened = views(openings@);
                    let take = pair(sequences, open, close);
                    push_take(&mut closings, close, take);
                    push_take(&mut openings, open, take);
                    proof {
                        lemma_total_push(closed[close as int], take);
                        lemma_total_push(opened[open as int], take);
                        assert forall|i: int| 0 <= i < sequences.len() implies accounts(
                            old(sequences)[i],
                            #[trigger] sequences[i],
                            views(closings@)[i],
                            views(openings@)[i],
                        ) by {
                            assert(accounts(old(sequences)[i], before[i], closed[i], opened[i]));
                        }
                    }
                    // Stay on this closing sequence for the next
                    // iteration: it might close more things.
                    if sequences[close].size > 0 {
                        next = close;
                    }
                },
                None => {},
            }
        }
        close = next;
    }
    (closings, openings)
}


/// The place that lies `by` markers after a place.
pub open spec fn placed(point: Point, index: usize, by: int) -> (Point, usize) {
    (
        Point {
            line: point.line,
            column: (point.column + by) as usize,
            offset: (point.offset + by) as usize,
        },
        (index + by) as usize,
    )
}

/// An event without links at a place.
pub open spec fn label(event_type: EventType, token_type: TokenType, place: (Point, usize)) -> Event {
    Event {
        event_type,
        token_type,
        point: place.0,
        index: place.1,
        previous: None,
        next: None,
        content_type: None,
    }
}

/// The label of attention made of `take` markers: emphasis for one, strong
/// otherwise.
pub open spec fn group_name(take: usize) -> TokenType {
    if take == 1 {
        TokenType::Emphasis
    } else {
        TokenType::Strong
    }
}

/// The label of the markers of attention made of `take` markers.
pub open spec fn sequence_name(take: usize) -> TokenType {
    if take == 1 {
        TokenType::EmphasisSequence
    } else {
        TokenType::StrongSequence
    }
}

/// The label of the content of attention made of `take` markers.
pub open spec fn text_name(take: usize) -> TokenType {
    if take == 1 {
        TokenType::EmphasisText
    } else {
        TokenType::StrongText
    }
}

/// The events that open attention with the markers between two places.
pub open spec fn opening_group(take: usize, from: (Point, usize), to: (Point, usize)) -> Seq<
    Event,
> {
    seq![
        label(EventType::Enter, group_name(take), from),
        label(EventType::Enter, sequence_name(take), from),
        label(EventType::Exit, sequence_name(take), to),
        label(EventType::Enter, text_name(take), to),
    ]
}

/// The events that close attention with the markers between two places.
pub open spec fn closing_group(take: usize, from: (Point, usize), to: (Point, usize)) -> Seq<
    Event,
> {
    seq![
        label(EventType::Exit, text_name(take), from),
        label(EventType::Enter, sequence_name(take), from),
        label(EventType::Exit, sequence_name(take), to),
        label(EventType::Exit, group_name(take), to),
    ]
}

/// The events for the first `count` takes from the start of a sequence that
/// began at `enter`: the first pair is the innermost, so its markers come
/// first.
pub open spec fn closing_events(takes: Seq<usize>, count: int, enter: Event) -> Seq<Event>
    decreases count,
{
    if count <= 0 || count > takes.len() {
        Seq::empty()
    } else {
        closing_events(takes, count - 1, enter) + closing_group(
            takes[count - 1],
            placed(enter.point, enter.index, total(takes.take(count - 1))),
            placed(enter.point, enter.index, total(takes.take(count))),
        )
    }
}

/// The events for the takes from `from` on from the end of a sequence that
/// ended at `exit`: the first pair is the innermost, so its markers come
/// last.
pub open spec fn opening_events(takes: Seq<usize>, from: int, exit: Event) -> Seq<Event>
    decreases takes.len() - from,
{
    if from < 0 || from >= takes.len() {
        Seq::empty()
    } else {
        opening_events(takes, from + 1, exit) + opening_group(
            takes[from],
            placed(exit.point, exit.index, -total(takes.take(from + 1))),
            placed(exit.point, exit.index, -total(takes.take(from))),
        )
    }
}

/// What takes the place of the enter and exit of a sequence of which `size`
/// markers are left: the attention that it closes, the markers that are
/// left, as data, and the attention that it opens.
pub open spec fn in_place_of(
    enter: Event,
    exit: Event,
    size: usize,
    closings: Seq<usize>,
    openings: Seq<usize>,
) -> Seq<Event> {
    closing_events(closings, closings.len() as int, enter) + if size > 0 {
        seq![
            label(
                EventType::Enter,
                TokenType::Data,
                placed(enter.point, enter.index, total(closings)),
            ),
            label(
                EventType::Exit,
                TokenType::Data,
                placed(exit.point, exit.index, -total(openings)),
            ),
        ]
    } else {
        Seq::empty()
    } + opening_events(openings, 0, exit)
}

/// The event itself, but as data if it belongs to an attention sequence.
pub open spec fn demoted(event: Event) -> Event {
    if event.token_type == TokenType::AttentionSequence {
        Event { token_type: TokenType::Data, ..event }
    } else {
        event
    }
}

/// The changes that replace the first `count` sequences by what became of
/// them.
pub open spec fn replacements(
    events: Seq<Event>,
    sequences: Seq<Sequence>,
    closings: Seq<Seq<usize>>,
    openings: Seq<Seq<usize>>,
    count: int,
) -> Seq<Change>
    decreases count,
{
    if count <= 0 {
        Seq::empty()
    } else {
        let sequence = sequences[count - 1];
        replacements(events, sequences, closings, openings, count - 1).push(
            Change {
                at: sequence.event_index,
                remove: 2,
                add: in_place_of(
                    events[sequence.event_index as int],
                    events[sequence.event_index + 1],
                    sequence.size,
                    closings[count - 1],
                    openings[count - 1],
                ),
            },
        )
    }
}

/// The events, those of attention sequences turned into data.
pub open spec fn all_demoted(events: Seq<Event>) -> Seq<Event> {
    events.map_values(|event: Event| demoted(event))
}

/// The events with every sequence replaced by what became of it, with
/// links moved along, and with what is left of attention sequences turned
/// into data.
pub open spec fn rewritten(
    events: Seq<Event>,
    sequences: Seq<Sequence>,
    closings: Seq<Seq<usize>>,
    openings: Seq<Seq<usize>>,
) -> Seq<Event> {
    let changes = replacements(events, sequences, closings, openings, sequences.len() as int);
    all_demoted(
        with_moved_links(
            edited(events, changes, 0, 0),
            moved(events.len() as int, changes, 0, 0, 0),
        ),
    )
}

/// An event without links at the place that lies `by` markers after, or
/// `back` markers before, a place.
fn label_at(
    event_type: EventType,
    token_type: TokenType,
    point: Point,
    index: usize,
    by: usize,
    back: usize,
) -> (event: Event)
    requires
        by == 0 || back == 0,
        point.column + by <= usize::MAX,
        point.offset + by <= usize::MAX,
        index + by <= usize::MAX,
        back <= point.column,
        back <= point.offset,
        back <= index,
    ensures
        event == label(event_type, token_type, placed(point, index, by - back)),
{
    Event {
        event_type,
        token_type,
        point: Point {
            line: point.line,
            column: point.column + by - back,
            offset: point.offset + by - back,
        },
        index: index + by - back,
        previous: None,
        next: None,
        content_type: None,
    }
}

/// The labels of attention made of `take` markers: of the whole, of its
/// markers, and of its content.
fn names(take: usize) -> (r: (TokenType, TokenType, TokenType))
    ensures
        r == (group_name(take), sequence_name(take), text_name(take)),
{
    if take == 1 {
        (TokenType::Emphasis, TokenType::EmphasisSequence, TokenType::EmphasisText)
    } else {
        (TokenType::Strong, TokenType::StrongSequence, TokenType::StrongText)
    }
}

/// Add what takes the place of the enter and exit of a sequence.
fn push_in_place(
    out: &mut Vec<Event>,
    enter: Event,
    exit: Event,
    size: usize,
    closings: &Vec<usize>,
    openings: &Vec<usize>,
)
    requires
        enter.index + total(closings@) + size + total(openings@) == exit.index,
        enter.point.column + total(closings@) + size + total(openings@) == exit.point.column,
        enter.point.offset + total(closings@) + size + total(openings@) == exit.point.offset,
    ensures
        final(out)@ == old(out)@ + in_place_of(enter, exit, size, closings@, openings@),
{
    proof {
        lemma_total_nonnegative(closings@);
        lemma_total_nonnegative(openings@);
    }
    // What the sequence closes, innermost first.
    let mut taken: usize = 0;
    let mut count: usize = 0;
    proof {
        assert(closings@.take(0) =~= Seq::<usize>::empty());
        assert(out@ + closing_events(closings@, 0, enter) =~= out@);
    }
    while count < closings.len()
        invariant
            count <= closings.len(),
            taken == total(closings@.take(count as int)),
            taken <= total(closings@),
            enter.index + total(closings@) <= usize::MAX,
            enter.point.column + total(closings@) <= usize::MAX,
            enter.point.offset + total(closings@) <= usize::MAX,
            out@ == old(out)@ + closing_events(closings@, count as int, enter),
        decreases closings.len() - count,
    {
        let take = closings[count];
        let ghost before = out@;
        proof {
            lemma_total_partial(closings@, count + 1);
            assert(closings@.take(count + 1).drop_last() =~= closings@.take(count as int));
        }
        let (group, sequence, text) = names(take);
        let after = taken + take;
        out.push(label_at(EventType::Exit, text, enter.point, enter.index, taken, 0));
        out.push(label_at(EventType::Enter, sequence, enter.point, enter.index, taken, 0));
        out.push(label_at(EventType::Exit, sequence, enter.point, enter.index, after, 0));
        out.push(label_at(EventType::Exit, group, enter.point, enter.index, after, 0));
        proof {
            assert(out@ =~= before + closing_group(
                take,
                placed(enter.point, enter.index, taken as int),
                placed(enter.point, enter.index, after as int),
            ));
            assert(out@ =~= old(out)@ + closing_events(closings@, count + 1, enter));
        }
        taken = after;
        count += 1;
    }
    proof {
        assert(closings@.take(closings.len() as int) =~= closings@);
    }
    // What is left of the sequence.
    let ghost closed = out@;
    // Number of markers taken from the end.
    let mut given: usize = 0;
    let mut from: usize = 0;
    proof {
        assert(openings@.take(0) =~= Seq::<usize>::empty());
    }
    while from < openings.len()
        invariant
            from <= openings.len(),
            given == total(openings@.take(from as int)),
            given <= total(openings@),
            total(openings@) <= exit.index,
            out@ == closed,
        decreases openings.len() - from,
    {
        proof {
            lemma_total_partial(openings@, from + 1);
            assert(openings@.take(from + 1).drop_last() =~= openings@.take(from as int));
        }
        given += openings[from];
        from += 1;
    }
    proof {
        assert(openings@.take(openings.len() as int) =~= openings@);
    }
    if size > 0 {
        out.push(label_at(EventType::Enter, TokenType::Data, enter.point, enter.index, taken, 0));
        out.push(label_at(EventType::Exit, TokenType::Data, exit.point, exit.index, 0, given));
    }
    // What the sequence opens, outermost first.
    let ghost left = out@;
    proof {
        assert(out@ + opening_events(openings@, openings.len() as int, exit) =~= out@);
    }
    while from > 0
        invariant
            from <= openings.len(),
            given == total(openings@.take(from as int)),
            given <= exit.index,
            given <= exit.point.column,
            given <= exit.point.offset,
            out@ == left + opening_events(openings@, from as int, exit),
        decreases from,
    {
        let ghost before = out@;
        from -= 1;
        let take = openings[from];
        proof {
            assert(openings@.take(from + 1).drop_last() =~= openings@.take(from as int));
            lemma_total_nonnegative(openings@.take(from as int));
        }
        let (group, sequence, text) = names(take);
        let rest = given - take;
        out.push(label_at(EventType::Enter, group, exit.point, exit.index, 0, given));
        out.push(label_at(EventType::Enter, sequence, exit.point, exit.index, 0, given));
        out.push(label_at(EventType::Exit, sequence, exit.point, exit.index, 0, rest));
        out.push(label_at(EventType::Enter, text, exit.point, exit.index, 0, rest));
        proof {
            assert(out@ =~= before + opening_group(
                take,
                placed(exit.point, exit.index, -(given as int)),
                placed(exit.point, exit.index, -(rest as int)),
            ));
            assert(out@ =~= left + opening_events(openings@, from as int, exit));
        }
        given = rest;
    }
    proof {
        assert(out@ =~= old(out)@ + in_place_of(enter, exit, size, closings@, openings@));
    }
}


/// Whether the sequence, with what was taken from it, fits the events that
/// it was found in: it replaces an enter and its exit that lie as many
/// markers apart as the sequence had.
pub open spec fn fits(
    events: Seq<Event>,
    sequence: Sequence,
    closings: Seq<usize>,
    openings: Seq<usize>,
) -> bool {
    let enter = events[sequence.event_index as int];
    let exit = events[sequence.event_index + 1];
    let markers = total(closings) + sequence.size + total(openings);
    &&& sequence.event_index + 1 < events.len()
    &&& enter.index + markers == exit.index
    &&& enter.point.column + markers == exit.point.column
    &&& enter.point.offset + markers == exit.point.offset
}

/// Replacements come in the order of their sequences, and stay sorted.
proof fn lemma_replacements(
    events: Seq<Event>,
    sequences: Seq<Sequence>,
    closings: Seq<Seq<usize>>,
    openings: Seq<Seq<usize>>,
    count: int,
)
    requires
        0 <= count <= sequences.len(),
        forall|i: int, j: int|
            0 <= i < j < sequences.len() ==> (#[trigger] sequences[i]).event_index < (
            #[trigger] sequences[j]).event_index,
    ensures
        replacements(events, sequences, closings, openings, count).len() == count,
        forall|i: int|
            0 <= i < count ==> (#[trigger] replacements(
                events,
                sequences,
                closings,
                openings,
                count,
            )[i]).at == sequences[i].event_index,
        sorted(replacements(events, sequences, closings, openings, count)),
        count < sequences.len() ==> added(
            replacements(events, sequences, closings, openings, count),
            sequences[count].event_index,
            2,
            in_place_of(
                events[sequences[count].event_index as int],
                events[sequences[count].event_index + 1],
                sequences[count].size,
                closings[count],
                openings[count],
            ),
            false,
        ) == replacements(events, sequences, closings, openings, count + 1),
    decreases count,
{
    if count > 0 {
        lemma_replacements(events, sequences, closings, openings, count - 1);
    }
    let changes = replacements(events, sequences, closings, openings, count);
    assert(sorted(changes)) by {
        assert forall|i: int, j: int| 0 <= i < j < changes.len() implies changes[i].at
            < changes[j].at by {
            assert(sequences[i].event_index < sequences[j].event_index);
        }
    }
    if count < sequences.len() {
        let at = sequences[count].event_index;
        lemma_slot(changes, at);
        if slot(changes, at) < changes.len() {
            assert(changes[slot(changes, at)].at == sequences[slot(changes, at)].event_index);
            assert(sequences[slot(changes, at)].event_index < sequences[count].event_index);
        }
        assert(changes.insert(count, replacements(
            events,
            sequences,
            closings,
            openings,
            count + 1,
        )[count]) =~= replacements(events, sequences, closings, openings, count + 1));
    }
}

/// Replace every sequence by what became of it, and turn what is left of
/// attention sequences into data.
pub fn rewrite(
    events: &Vec<Event>,
    sequences: &Vec<Sequence>,
    closings: &Vec<Vec<usize>>,
    openings: &Vec<Vec<usize>>,
) -> (out: Vec<Event>)
    requires
        closings.len() == sequences.len(),
        openings.len() == sequences.len(),
        forall|i: int|
            0 <= i < sequences.len() ==> fits(
                events@,
                #[trigger] sequences[i],
                views(closings@)[i],
                views(openings@)[i],
            ),
        forall|i: int, j: int|
            0 <= i < j < sequences.len() ==> (#[trigger] sequences[i]).event_index < (
            #[trigger] sequences[j]).event_index,
    ensures
        out@ == rewritten(events@, sequences@, views(closings@), views(openings@)),
{
    let mut edit_map = EditMap::new();
    let mut next: usize = 0;
    while next < sequences.len()
        invariant
            next <= sequences.len(),
            closings.len() == sequences.len(),
            openings.len() == sequences.len(),
            forall|i: int|
                0 <= i < sequences.len() ==> fits(
                    events@,
                    #[trigger] sequences[i],
                    views(closings@)[i],
                    views(openings@)[i],
                ),
            forall|i: int, j: int|
                0 <= i < j < sequences.len() ==> (#[trigger] sequences[i]).event_index < (
                #[trigger] sequences[j]).event_index,
            edit_map.wf(),
            edit_map@ == replacements(
                events@,
                sequences@,
                views(closings@),
                views(openings@),
                next as int,
            ),
        decreases sequences.len() - next,
    {
        let sequence = sequences[next];
        proof {
            assert(fits(
                events@,
                sequences[next as int],
                views(closings@)[next as int],
                views(openings@)[next as int],
            ));
            assert(sequence.event_index + 1 < events.len());
            lemma_replacements(
                events@,
                sequences@,
                views(closings@),
                views(openings@),
                next as int,
            );
        }
        let mut add: Vec<Event> = Vec::new();
        push_in_place(
            &mut add,
            events[sequence.event_index],
            events[sequence.event_index + 1],
            sequence.size,
            &closings[next],
            &openings[next],
        );
        proof {
            assert(add@ =~= in_place_of(
                events[sequence.event_index as int],
                events[sequence.event_index + 1],
                sequence.size,
                views(closings@)[next as int],
                views(openings@)[next as int],
            ));
        }
        edit_map.add(sequence.event_index, 2, add);
        next += 1;
    }
    let mut out: Vec<Event> = Vec::new();
    let mut index: usize = 0;
    while index < events.len()
        invariant
            index <= events.len(),
            out@ == events@.take(index as int),
        decreases events.len() - index,
    {
        out.push(events[index]);
        index += 1;
        proof {
            assert(events@.take(index as int) =~= events@.take(index - 1).push(events[index - 1]));
        }
    }
    proof {
        assert(events@.take(events.len() as int) =~= events@);
    }
    edit_map.consume(&mut out);
    // Mark remaining sequences as data.
    let ghost made = out@;
    let mut index: usize = 0;
    while index < out.len()
        invariant
            index <= out.len(),
            out.len() == made.len(),
            forall|i: int| 0 <= i < index ==> out[i] == demoted(made[i]),
            forall|i: int| index <= i < out.len() ==> out[i] == made[i],
        decreases out.len() - index,
    {
        let mut event = out[index];
        match event.token_type {
            TokenType::AttentionSequence => {
                event.token_type = TokenType::Data;
            },
            _ => {},
        }
        out[index] = event;
        index += 1;
    }
    proof {
        assert(out@ =~= all_demoted(made));
    }
    out
}

/// What resolving attention makes of the events: the sequences are found,
/// paired, and replaced by what became of them.
pub open spec fn attended(events: Seq<Event>, codes: Seq<Code>) -> Seq<Event> {
    let sequences = sequences_of(events, codes, events.len() as int);
    let blank = Seq::new(sequences.len(), |i: int| Seq::<usize>::empty());
    let pairing = resolved(sequences, blank, blank, 0);
    rewritten(events, pairing.0, pairing.1, pairing.2)
}

/// Resolve attention sequences.
///
/// Emphasis and strong take the place of the sequences that pair, and what
/// is left of the sequences becomes data.  The events are replaced only if
/// the outcome is nested and ordered as the events of a tokenizer are to be;
/// the result tells whether they were.
pub fn resolve(tokenizer: &mut Tokenizer) -> (replaced: bool)
    requires
        old(tokenizer).wf(),
        old(tokenizer).attempts.len() == 0,
    ensures
        replaced == old(tokenizer).accepts(
            attended(old(tokenizer).events@, old(tokenizer).parse_state.codes@),
        ),
        final(tokenizer).events@ == if old(tokenizer).accepts(
            attended(old(tokenizer).events@, old(tokenizer).parse_state.codes@),
        ) {
            attended(old(tokenizer).events@, old(tokenizer).parse_state.codes@)
        } else {
            old(tokenizer).events@
        },
        *final(tokenizer) == (Tokenizer { events: final(tokenizer).events, ..*old(tokenizer) }),
        final(tokenizer).wf(),
        old(tokenizer).orderly() ==> final(tokenizer).orderly(),
{
    let mut sequences = get_sequences(&tokenizer.events, &tokenizer.parse_state.codes);
    let ghost found = sequences@;
    let (closings, openings) = match_sequences(&mut sequences);
    proof {
        assert forall|i: int| 0 <= i < sequences.len() implies fits(
            tokenizer.events@,
            #[trigger] sequences[i],
            views(closings@)[i],
            views(openings@)[i],
        ) by {
            assert(accounts(found[i], sequences[i], views(closings@)[i], views(openings@)[i]));
            assert(stands_for(tokenizer.events@, found[i]));
        }
        assert forall|i: int, j: int| 0 <= i < j < sequences.len() implies (
        #[trigger] sequences[i]).event_index < (#[trigger] sequences[j]).event_index by {
            assert(accounts(found[i], sequences[i], views(closings@)[i], views(openings@)[i]));
            assert(accounts(found[j], sequences[j], views(closings@)[j], views(openings@)[j]));
            assert(found[i].event_index + 1 < found[j].event_index);
        }
    }
    let events = rewrite(&tokenizer.events, &sequences, &closings, &openings);
    tokenizer.replace_events(events)
}

} // verus!
