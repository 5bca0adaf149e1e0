//! Characters to tokens.
//!
//! A token is a run of spaces, the end of a line, one or two characters of
//! punctuation, an identifier or a keyword, a run of digits, or a part of a
//! string in apostrophes. [`token_at`] says which token begins at a position
//! of the characters, and [`lex`] what all of them come to.
use crate::advancer::{lemma_run_end, run_end, Advancer, Cursor, Matcher};
use vstd::prelude::*;

verus! {

/// The kinds of token.
#[derive(Debug, Clone, Copy, PartialEq, Eq, Structural)]
pub enum Tok {
    Indent,
    Space,
    LineEnd,
    DoubleAsterisk,
    DoubleEquals,
    ExclamationEquals,
    LessThanEquals,
    GreaterThanEquals,
    PlusEquals,
    MinusEquals,
    AsteriskEquals,
    SlashEquals,
    DoubleFullStop,
    FullStop,
    Equals,
    Plus,
    Minus,
    Asterisk,
    Slash,
    VerticalBar,
    Colon,
    Caret,
    ParenLeft,
    ParenRight,
    SquareBracketLeft,
    SquareBracketRight,
    LessThan,
    GreaterThan,
    CurlyBracketLeft,
    CurlyBracketRight,
    Comment,
    Apostrophe,
    Text,
    Identifier,
    Digits,
    Ef,
    El,
    If,
    In,
    Fn,
    Or,
    And,
    For,
    Not,
    Ret,
    Loop,
    True,
    Break,
    False,
    Match,
}

/// Where a token stands: the number of characters it spans, the position
/// after its last character, and the line and column of its first one, both
/// counted from 1.
#[derive(Debug, Clone, Copy, PartialEq, Eq, Structural)]
pub struct TokMeta {
    pub span: usize,
    pub end: usize,
    pub line: usize,
    pub col: usize,
}


/// A token's kind and the position after its last character.
pub type TokMatch = Option<(Tok, usize)>;

/// A cursor over characters.
pub type CharAdvancer<'a> = Advancer<'a, char>;

/// A token accepts a token of its own kind.
impl Matcher<Tok> for Tok {
    open spec fn accepts(&self, item: &Tok) -> bool {
        *self == *item
    }

    fn matches(&self, item: &Tok) -> (r: bool) {
        *self == *item
    }
}

/// A slice of tokens accepts each kind of token that it holds.
impl<'a> Matcher<Tok> for &'a [Tok] {
    open spec fn accepts(&self, item: &Tok) -> bool {
        (*self)@.contains(*item)
    }

    fn matches(&self, item: &Tok) -> (r: bool) {
        let mut i: usize = 0;
        while i < self.len()
            invariant
                i <= (*self)@.len(),
                forall|k: int| 0 <= k < i ==> (*self)@[k] != *item,
            decreases (*self)@.len() - i,
        {
            if self[i] == *item {
                return true;
            }
            i += 1;
        }
        false
    }
}

/// The sets of characters that identifiers, numbers and strings are made
/// of.
#[derive(Debug, Clone, Copy, PartialEq, Eq, Structural)]
pub enum CharClass {
    /// A letter of the Latin alphabet or an underscore.
    IdentifierStart,
    /// A letter of the Latin alphabet, a digit or an underscore.
    IdentifierPart,
    /// One of the ten digits.
    Digit,
    /// Every character.
    Any,
}

/// Is `c` a letter of the Latin alphabet or an underscore?
pub open spec fn is_letter(c: char) -> bool {
    ('a' <= c && c <= 'z') || ('A' <= c && c <= 'Z') || c == '_'
}

/// Is `c` one of the ten digits?
pub open spec fn is_digit(c: char) -> bool {
    '0' <= c && c <= '9'
}

/// The characters that may follow a backslash in a string.
pub open spec fn escapes() -> Seq<char> {
    seq!['n', '\'', '\\', 'r', 't', '0']
}

impl Matcher<char> for CharClass {
    open spec fn accepts(&self, item: &char) -> bool {
        match self {
            CharClass::IdentifierStart => is_letter(*item),
            CharClass::IdentifierPart => is_letter(*item) || is_digit(*item),
            CharClass::Digit => is_digit(*item),
            CharClass::Any => true,
        }
    }

    fn matches(&self, item: &char) -> (r: bool) {
        let c = *item;
        match self {
            CharClass::IdentifierStart => (c >= 'a' && c <= 'z') || (c >= 'A' && c <= 'Z') || c
                == '_',
            CharClass::IdentifierPart => (c >= 'a' && c <= 'z') || (c >= 'A' && c <= 'Z') || (c
                >= '0' && c <= '9') || c == '_',
            CharClass::Digit => c >= '0' && c <= '9',
            CharClass::Any => true,
        }
    }
}

/// The character at position `at`, if there is one.
pub open spec fn char_at(s: Seq<char>, at: int) -> Option<char> {
    if 0 <= at < s.len() {
        Some(s[at])
    } else {
        None
    }
}

/// The keyword that `word` spells, or `Identifier`.
pub open spec fn keyword(word: Seq<char>) -> Tok {
    if word == seq!['e', 'f'] {
        Tok::Ef
    } else if word == seq!['e', 'l'] {
        Tok::El
    } else if word == seq!['i', 'f'] {
        Tok::If
    } else if word == seq!['i', 'n'] {
        Tok::In
    } else if word == seq!['f', 'n'] {
        Tok::Fn
    } else if word == seq!['o', 'r'] {
        Tok::Or
    } else if word == seq!['a', 'n', 'd'] {
        Tok::And
    } else if word == seq!['f', 'o', 'r'] {
        Tok::For
    } else if word == seq!['n', 'o', 't'] {
        Tok::Not
    } else if word == seq!['r', 'e', 't'] {
        Tok::Ret
    } else if word == seq!['l', 'o', 'o', 'p'] {
        Tok::Loop
    } else if word == seq!['t', 'r', 'u', 'e'] {
        Tok::True
    } else if word == seq!['b', 'r', 'e', 'a', 'k'] {
        Tok::Break
    } else if word == seq!['f', 'a', 'l', 's', 'e'] {
        Tok::False
    } else if word == seq!['m', 'a', 't', 'c', 'h'] {
        Tok::Match
    } else {
        Tok::Identifier
    }
}

/// The token of punctuation that begins with `first`, where `second` is the
/// character after it, and the number of characters that it takes.
pub open spec fn punctuation(first: char, second: Option<char>) -> Option<(Tok, int)> {
    if first == '*' {
        if second == Some('*') {
            Some((Tok::DoubleAsterisk, 2))
        } else if second == Some('=') {
            Some((Tok::AsteriskEquals, 2))
        } else {
            Some((Tok::Asterisk, 1))
        }
    } else if first == '=' {
        if second == Some('=') {
            Some((Tok::DoubleEquals, 2))
        } else {
            Some((Tok::Equals, 1))
        }
    } else if first == '!' {
        if second == Some('=') {
            Some((Tok::ExclamationEquals, 2))
        } else {
            None
        }
    } else if first == '<' {
        if second == Some('=') {
            Some((Tok::LessThanEquals, 2))
        } else {
            Some((Tok::LessThan, 1))
        }
    } else if first == '>' {
        if second == Some('=') {
            Some((Tok::GreaterThanEquals, 2))
        } else {
            Some((Tok::GreaterThan, 1))
        }
    } else if first == '+' {
        if second == Some('=') {
            Some((Tok::PlusEquals, 2))
        } else {
            Some((Tok::Plus, 1))
        }
    } else if first == '-' {
        if second == Some('=') {
            Some((Tok::MinusEquals, 2))
        } else {
            Some((Tok::Minus, 1))
        }
    } else if first == '/' {
        if second == Some('=') {
            Some((Tok::SlashEquals, 2))
        } else {
            Some((Tok::Slash, 1))
        }
    } else if first == '.' {
        if second == Some('.') {
            Some((Tok::DoubleFullStop, 2))
        } else {
            Some((Tok::FullStop, 1))
        }
    } else if first == '|' {
        Some((Tok::VerticalBar, 1))
    } else if first == ':' {
        Some((Tok::Colon, 1))
    } else if first == '^' {
        Some((Tok::Caret, 1))
    } else if first == '(' {
        Some((Tok::ParenLeft, 1))
    } else if first == ')' {
        Some((Tok::ParenRight, 1))
    } else if first == '[' {
        Some((Tok::SquareBracketLeft, 1))
    } else if first == ']' {
        Some((Tok::SquareBracketRight, 1))
    } else if first == '{' {
        Some((Tok::CurlyBracketLeft, 1))
    } else if first == '}' {
        Some((Tok::CurlyBracketRight, 1))
    } else {
        None
    }
}

/// The token `tok` at `from`, if the character there is `c`.
pub open spec fn one_char_at(s: Seq<char>, from: int, c: char, tok: Tok) -> Option<(Tok, int)> {
    if char_at(s, from) == Some(c) {
        Some((tok, from + 1))
    } else {
        None
    }
}

/// The token `tok` at `from`, if the two characters there are `c1` and `c2`.
pub open spec fn two_chars_at(s: Seq<char>, from: int, c1: char, c2: char, tok: Tok) -> Option<
    (Tok, int),
> {
    if char_at(s, from) == Some(c1) && char_at(s, from + 1) == Some(c2) {
        Some((tok, from + 2))
    } else {
        None
    }
}

/// The token of spaces or the end of a line that begins at `from`: spaces,
/// then a carriage return, a line feed or both make the end of a line;
/// spaces alone make the end of a line where the characters end after
/// them, and a space token elsewhere.
pub open spec fn space_line_end_at(s: Seq<char>, from: int) -> Option<(Tok, int)> {
    let spaced = run_end(s, from, ' ');
    let returned = if char_at(s, spaced) == Some('\r') {
        spaced + 1
    } else {
        spaced
    };
    let fed = if char_at(s, returned) == Some('\n') {
        returned + 1
    } else {
        returned
    };
    if fed != spaced {
        Some((Tok::LineEnd, fed))
    } else if spaced != from {
        if spaced == s.len() {
            Some((Tok::LineEnd, spaced))
        } else {
            Some((Tok::Space, spaced))
        }
    } else {
        None
    }
}

/// The identifier or keyword that begins at `from`: a letter or an
/// underscore, then the longest run of letters, digits and underscores.
pub open spec fn identifier_at(s: Seq<char>, from: int) -> Option<(Tok, int)> {
    if 0 <= from < s.len() && is_letter(s[from]) {
        let end = run_end(s, from + 1, CharClass::IdentifierPart);
        Some((keyword(s.subrange(from, end)), end))
    } else {
        None
    }
}

/// The longest run of digits that begins at `from`.
pub open spec fn digits_at(s: Seq<char>, from: int) -> Option<(Tok, int)> {
    if 0 <= from < s.len() && is_digit(s[from]) {
        Some((Tok::Digits, run_end(s, from, CharClass::Digit)))
    } else {
        None
    }
}

/// The token that begins at `from`, and the position after it. There is
/// none where a string begins, nor at a character that begins no token.
pub open spec fn token_at(s: Seq<char>, from: int) -> Option<(Tok, int)> {
    if !(0 <= from < s.len()) {
        None
    } else if space_line_end_at(s, from) is Some {
        space_line_end_at(s, from)
    } else if let Some((tok, n)) = punctuation(s[from], char_at(s, from + 1)) {
        Some((tok, from + n))
    } else if is_letter(s[from]) {
        identifier_at(s, from)
    } else {
        digits_at(s, from)
    }
}

/// The token at `from` takes at least one character, and ends within the
/// characters.
pub proof fn lemma_token_advances(s: Seq<char>, from: int)
    requires
        0 <= from <= s.len(),
    ensures
        token_at(s, from) matches Some((_, end)) ==> from < end <= s.len(),
        space_line_end_at(s, from) matches Some((_, end)) ==> from < end <= s.len(),
        identifier_at(s, from) matches Some((_, end)) ==> from < end <= s.len(),
        digits_at(s, from) matches Some((_, end)) ==> from < end <= s.len(),
{
    lemma_run_end(s, from, ' ');
    if from < s.len() {
        lemma_run_end(s, from + 1, CharClass::IdentifierPart);
        lemma_run_end(s, from, CharClass::Digit);
    }
}

/// What a matcher of tokens does to the cursor: where it finds a token, it
/// commits the cursor after it; where it finds none, the cursor stays.
pub open spec fn taken(
    before: Cursor<char>,
    after: Cursor<char>,
    found: Option<(Tok, int)>,
    r: TokMatch,
) -> bool {
    match found {
        Some((tok, end)) => r == Some((tok, end as usize)) && after == (Cursor {
            items: before.items,
            start: end,
            peek: end,
        }),
        None => r is None && after == before,
    }
}

/// Matches the one character `c` as the token `tok`.
fn exact(advancer: &mut CharAdvancer, c: char, tok: Tok) -> (r: TokMatch)
    requires
        old(advancer)@.start == old(advancer)@.peek,
    ensures
        taken(
            old(advancer)@,
            final(advancer)@,
            one_char_at(old(advancer)@.items, old(advancer)@.peek, c, tok),
            r,
        ),
{
    // Read for what it says of the cursor: the positions lie within the
    // characters.
    let _ = advancer.pos();
    if advancer.one(c).is_none() {
        return None;
    }
    advancer.consume();
    Some((tok, advancer.pos()))
}

/// Matches the two characters `c1` and `c2` as the token `tok`.
fn exact_pair(advancer: &mut CharAdvancer, c1: char, c2: char, tok: Tok) -> (r: TokMatch)
    requires
        old(advancer)@.start == old(advancer)@.peek,
    ensures
        taken(
            old(advancer)@,
            final(advancer)@,
            two_chars_at(old(advancer)@.items, old(advancer)@.peek, c1, c2, tok),
            r,
        ),
{
    // Read for what it says of the cursor: the positions lie within the
    // characters.
    let _ = advancer.pos();
    if advancer.one(c1).is_none() {
        return None;
    }
    if advancer.one(c2).is_none() {
        return None;
    }
    advancer.consume();
    Some((tok, advancer.pos()))
}


/// Matches `**`.
pub fn double_asterisk(advancer: &mut CharAdvancer) -> (r: TokMatch)
    requires
        old(advancer)@.start == old(advancer)@.peek,
    ensures
        taken(
            old(advancer)@,
            final(advancer)@,
            two_chars_at(old(advancer)@.items, old(advancer)@.peek, '*', '*', Tok::DoubleAsterisk),
            r,
        ),
{
    exact_pair(advancer, '*', '*', Tok::DoubleAsterisk)
}

/// Matches `==`.
pub fn double_equals(advancer: &mut CharAdvancer) -> (r: TokMatch)
    requires
        old(advancer)@.start == old(advancer)@.peek,
    ensures
        taken(
            old(advancer)@,
            final(advancer)@,
            two_chars_at(old(advancer)@.items, old(advancer)@.peek, '=', '=', Tok::DoubleEquals),
            r,
        ),
{
    exact_pair(advancer, '=', '=', Tok::DoubleEquals)
}

/// Matches `!=`.
pub fn exclamation_equals(advancer: &mut CharAdvancer) -> (r: TokMatch)
    requires
        old(advancer)@.start == old(advancer)@.peek,
    ensures
        taken(
            old(advancer)@,
            final(advancer)@,
            two_chars_at(old(advancer)@.items, old(advancer)@.peek, '!', '=', Tok::ExclamationEquals),
            r,
        ),
{
    exact_pair(advancer, '!', '=', Tok::ExclamationEquals)
}

/// Matches `<=`.
pub fn less_than_equals(advancer: &mut CharAdvancer) -> (r: TokMatch)
    requires
        old(advancer)@.start == old(advancer)@.peek,
    ensures
        taken(
            old(advancer)@,
            final(advancer)@,
            two_chars_at(old(advancer)@.items, old(advancer)@.peek, '<', '=', Tok::LessThanEquals),
            r,
        ),
{
    exact_pair(advancer, '<', '=', Tok::LessThanEquals)
}

/// Matches `>=`.
pub fn greater_than_equals(advancer: &mut CharAdvancer) -> (r: TokMatch)
    requires
        old(advancer)@.start == old(advancer)@.peek,
    ensures
        taken(
            old(advancer)@,
            final(advancer)@,
            two_chars_at(old(advancer)@.items, old(advancer)@.peek, '>', '=', Tok::GreaterThanEquals),
            r,
        ),
{
    exact_pair(advancer, '>', '=', Tok::GreaterThanEquals)
}

/// Matches `+=`.
pub fn plus_equals(advancer: &mut CharAdvancer) -> (r: TokMatch)
    requires
        old(advancer)@.start == old(advancer)@.peek,
    ensures
        taken(
            old(advancer)@,
            final(advancer)@,
            two_chars_at(old(advancer)@.items, old(advancer)@.peek, '+', '=', Tok::PlusEquals),
            r,
        ),
{
    exact_pair(advancer, '+', '=', Tok::PlusEquals)
}

/// Matches `-=`.
pub fn minus_equals(advancer: &mut CharAdvancer) -> (r: TokMatch)
    requires
        old(advancer)@.start == old(advancer)@.peek,
    ensures
        taken(
            old(advancer)@,
            final(advancer)@,
            two_chars_at(old(advancer)@.items, old(advancer)@.peek, '-', '=', Tok::MinusEquals),
            r,
        ),
{
    exact_pair(advancer, '-', '=', Tok::MinusEquals)
}

/// Matches `*=`.
pub fn asterisk_equals(advancer: &mut CharAdvancer) -> (r: TokMatch)
    requires
        old(advancer)@.start == old(advancer)@.peek,
    ensures
        taken(
            old(advancer)@,
            final(advancer)@,
            two_chars_at(old(advancer)@.items, old(advancer)@.peek, '*', '=', Tok::AsteriskEquals),
            r,
        ),
{
    exact_pair(advancer, '*', '=', Tok::AsteriskEquals)
}

/// Matches `/=`.
pub fn slash_equals(advancer: &mut CharAdvancer) -> (r: TokMatch)
    requires
        old(advancer)@.start == old(advancer)@.peek,
    ensures
        taken(
            old(advancer)@,
            final(advancer)@,
            two_chars_at(old(advancer)@.items, old(advancer)@.peek, '/', '=', Tok::SlashEquals),
            r,
        ),
{
    exact_pair(advancer, '/', '=', Tok::SlashEquals)
}

/// Matches `..`.
pub fn double_full_stop(advancer: &mut CharAdvancer) -> (r: TokMatch)
    requires
        old(advancer)@.start == old(advancer)@.peek,
    ensures
        taken(
            old(advancer)@,
            final(advancer)@,
            two_chars_at(old(advancer)@.items, old(advancer)@.peek, '.', '.', Tok::DoubleFullStop),
            r,
        ),
{
    exact_pair(advancer, '.', '.', Tok::DoubleFullStop)
}

/// Matches `.`.
pub fn full_stop(advancer: &mut CharAdvancer) -> (r: TokMatch)
    requires
        old(advancer)@.start == old(advancer)@.peek,
    ensures
        taken(
            old(advancer)@,
            final(advancer)@,
            one_char_at(old(advancer)@.items, old(advancer)@.peek, '.', Tok::FullStop),
            r,
        ),
{
    exact(advancer, '.', Tok::FullStop)
}

/// Matches `=`.
pub fn equals(advancer: &mut CharAdvancer) -> (r: TokMatch)
    requires
        old(advancer)@.start == old(advancer)@.peek,
    ensures
        taken(
            old(advancer)@,
            final(advancer)@,
            one_char_at(old(advancer)@.items, old(advancer)@.peek, '=', Tok::Equals),
            r,
        ),
{
    exact(advancer, '=', Tok::Equals)
}

/// Matches `+`.
pub fn plus(advancer: &mut CharAdvancer) -> (r: TokMatch)
    requires
        old(advancer)@.start == old(advancer)@.peek,
    ensures
        taken(
            old(advancer)@,
            final(advancer)@,
            one_char_at(old(advancer)@.items, old(advancer)@.peek, '+', Tok::Plus),
            r,
        ),
{
    exact(advancer, '+', Tok::Plus)
}

/// Matches `-`.
pub fn minus(advancer: &mut CharAdvancer) -> (r: TokMatch)
    requires
        old(advancer)@.start == old(advancer)@.peek,
    ensures
        taken(
            old(advancer)@,
            final(advancer)@,
            one_char_at(old(advancer)@.items, old(advancer)@.peek, '-', Tok::Minus),
            r,
        ),
{
    exact(advancer, '-', Tok::Minus)
}

/// Matches `*`.
pub fn asterisk(advancer: &mut CharAdvancer) -> (r: TokMatch)
    requires
        old(advancer)@.start == old(advancer)@.peek,
    ensures
        taken(
            old(advancer)@,
            final(advancer)@,
            one_char_at(old(advancer)@.items, old(advancer)@.peek, '*', Tok::Asterisk),
            r,
        ),
{
    exact(advancer, '*', Tok::Asterisk)
}

/// Matches `/`.
pub fn slash(advancer: &mut CharAdvancer) -> (r: TokMatch)
    requires
        old(advancer)@.start == old(advancer)@.peek,
    ensures
        taken(
            old(advancer)@,
            final(advancer)@,
            one_char_at(old(advancer)@.items, old(advancer)@.peek, '/', Tok::Slash),
            r,
        ),
{
    exact(advancer, '/', Tok::Slash)
}

/// Matches `|`.
pub fn vertical_bar(advancer: &mut CharAdvancer) -> (r: TokMatch)
    requires
        old(advancer)@.start == old(advancer)@.peek,
    ensures
        taken(
            old(advancer)@,
            final(advancer)@,
            one_char_at(old(advancer)@.items, old(advancer)@.peek, '|', Tok::VerticalBar),
            r,
        ),
{
    exact(advancer, '|', Tok::VerticalBar)
}

/// Matches `:`.
pub fn colon(advancer: &mut CharAdvancer) -> (r: TokMatch)
    requires
        old(advancer)@.start == old(advancer)@.peek,
    ensures
        taken(
            old(advancer)@,
            final(advancer)@,
            one_char_at(old(advancer)@.items, old(advancer)@.peek, ':', Tok::Colon),
            r,
        ),
{
    exact(advancer, ':', Tok::Colon)
}

/// Matches `^`.
pub fn caret(advancer: &mut CharAdvancer) -> (r: TokMatch)
    requires
        old(advancer)@.start == old(advancer)@.peek,
    ensures
        taken(
            old(advancer)@,
            final(advancer)@,
            one_char_at(old(advancer)@.items, old(advancer)@.peek, '^', Tok::Caret),
            r,
        ),
{
    exact(advancer, '^', Tok::Caret)
}

/// Matches `(`.
pub fn paren_left(advancer: &mut CharAdvancer) -> (r: TokMatch)
    requires
        old(advancer)@.start == old(advancer)@.peek,
    ensures
        taken(
            old(advancer)@,
            final(advancer)@,
            one_char_at(old(advancer)@.items, old(advancer)@.peek, '(', Tok::ParenLeft),
            r,
        ),
{
    exact(advancer, '(', Tok::ParenLeft)
}

/// Matches `)`.
pub fn paren_right(advancer: &mut CharAdvancer) -> (r: TokMatch)
    requires
        old(advancer)@.start == old(advancer)@.peek,
    ensures
        taken(
            old(advancer)@,
            final(advancer)@,
            one_char_at(old(advancer)@.items, old(advancer)@.peek, ')', Tok::ParenRight),
            r,
        ),
{
    exact(advancer, ')', Tok::ParenRight)
}

/// Matches `[`.
pub fn square_bracket_left(advancer: &mut CharAdvancer) -> (r: TokMatch)
    requires
        old(advancer)@.start == old(advancer)@.peek,
    ensures
        taken(
            old(advancer)@,
            final(advancer)@,
            one_char_at(old(advancer)@.items, old(advancer)@.peek, '[', Tok::SquareBracketLeft),
            r,
        ),
{
    exact(advancer, '[', Tok::SquareBracketLeft)
}

/// Matches `]`.
pub fn square_bracket_right(advancer: &mut CharAdvancer) -> (r: TokMatch)
    requires
        old(advancer)@.start == old(advancer)@.peek,
    ensures
        taken(
            old(advancer)@,
            final(advancer)@,
            one_char_at(old(advancer)@.items, old(advancer)@.peek, ']', Tok::SquareBracketRight),
            r,
        ),
{
    exact(advancer, ']', Tok::SquareBracketRight)
}

/// Matches `<`.
pub fn less_than(advancer: &mut CharAdvancer) -> (r: TokMatch)
    requires
        old(advancer)@.start == old(advancer)@.peek,
    ensures
        taken(
            old(advancer)@,
            final(advancer)@,
            one_char_at(old(advancer)@.items, old(advancer)@.peek, '<', Tok::LessThan),
            r,
        ),
{
    exact(advancer, '<', Tok::LessThan)
}

/// Matches `>`.
pub fn greater_than(advancer: &mut CharAdvancer) -> (r: TokMatch)
    requires
        old(advancer)@.start == old(advancer)@.peek,
    ensures
        taken(
            old(advancer)@,
            final(advancer)@,
            one_char_at(old(advancer)@.items, old(advancer)@.peek, '>', Tok::GreaterThan),
            r,
        ),
{
    exact(advancer, '>', Tok::GreaterThan)
}

/// Matches `{`.
pub fn curly_bracket_left(advancer: &mut CharAdvancer) -> (r: TokMatch)
    requires
        old(advancer)@.start == old(advancer)@.peek,
    ensures
        taken(
            old(advancer)@,
            final(advancer)@,
            one_char_at(old(advancer)@.items, old(advancer)@.peek, '{', Tok::CurlyBracketLeft),
            r,
        ),
{
    exact(advancer, '{', Tok::CurlyBracketLeft)
}

/// Matches `}`.
pub fn curly_backet_right(advancer: &mut CharAdvancer) -> (r: TokMatch)
    requires
        old(advancer)@.start == old(advancer)@.peek,
    ensures
        taken(
            old(advancer)@,
            final(advancer)@,
            one_char_at(old(advancer)@.items, old(advancer)@.peek, '}', Tok::CurlyBracketRight),
            r,
        ),
{
    exact(advancer, '}', Tok::CurlyBracketRight)
}

/// Matches spaces or the end of a line.
pub fn space_line_end(advancer: &mut CharAdvancer) -> (r: TokMatch)
    requires
        old(advancer)@.start == old(advancer)@.peek,
    ensures
        taken(
            old(advancer)@,
            final(advancer)@,
            space_line_end_at(old(advancer)@.items, old(advancer)@.peek),
            r,
        ),
{
    let pos_start = advancer.pos();
    proof {
        lemma_run_end(advancer@.items, advancer@.peek, ' ');
    }
    advancer.zero_or_more(' ');
    let pos_after_space = advancer.pos();
    advancer.zero_or_one('\r');
    let pos_after_r = advancer.pos();
    advancer.zero_or_one('\n');
    let pos_after_n = advancer.pos();
    let tok = if pos_after_n != pos_after_space {
        Tok::LineEnd
    } else if pos_after_space != pos_start {
        if advancer.cannot_peek() {
            Tok::LineEnd
        } else {
            Tok::Space
        }
    } else {
        return None;
    };
    advancer.consume();
    Some((tok, pos_after_n))
}

/// The keyword that the characters since the last commit spell, or
/// `Identifier`.
fn try_keyword(advancer: &CharAdvancer) -> (r: Tok)
    ensures
        r == keyword(advancer@.items.subrange(advancer@.start, advancer@.peek)),
{
    let w = advancer.current();
    let len = w.len();
    if len == 2 {
        if w[0] == 'e' && w[1] == 'f' {
            assert(w@ =~= seq!['e', 'f']);
            return Tok::Ef;
        }
        if w[0] == 'e' && w[1] == 'l' {
            assert(w@ =~= seq!['e', 'l']);
            return Tok::El;
        }
        if w[0] == 'i' && w[1] == 'f' {
            assert(w@ =~= seq!['i', 'f']);
            return Tok::If;
        }
        if w[0] == 'i' && w[1] == 'n' {
            assert(w@ =~= seq!['i', 'n']);
            return Tok::In;
        }
        if w[0] == 'f' && w[1] == 'n' {
            assert(w@ =~= seq!['f', 'n']);
            return Tok::Fn;
        }
        if w[0] == 'o' && w[1] == 'r' {
            assert(w@ =~= seq!['o', 'r']);
            return Tok::Or;
        }
    } else if len == 3 {
        if w[0] == 'a' && w[1] == 'n' && w[2] == 'd' {
            assert(w@ =~= seq!['a', 'n', 'd']);
            return Tok::And;
        }
        if w[0] == 'f' && w[1] == 'o' && w[2] == 'r' {
            assert(w@ =~= seq!['f', 'o', 'r']);
            return Tok::For;
        }
        if w[0] == 'n' && w[1] == 'o' && w[2] == 't' {
            assert(w@ =~= seq!['n', 'o', 't']);
            return Tok::Not;
        }
        if w[0] == 'r' && w[1] == 'e' && w[2] == 't' {
            assert(w@ =~= seq!['r', 'e', 't']);
            return Tok::Ret;
        }
    } else if len == 4 {
        if w[0] == 'l' && w[1] == 'o' && w[2] == 'o' && w[3] == 'p' {
            assert(w@ =~= seq!['l', 'o', 'o', 'p']);
            return Tok::Loop;
        }
        if w[0] == 't' && w[1] == 'r' && w[2] == 'u' && w[3] == 'e' {
            assert(w@ =~= seq!['t', 'r', 'u', 'e']);
            return Tok::True;
        }
    } else if len == 5 {
        if w[0] == 'b' && w[1] == 'r' && w[2] == 'e' && w[3] == 'a' && w[4] == 'k' {
            assert(w@ =~= seq!['b', 'r', 'e', 'a', 'k']);
            return Tok::Break;
        }
        if w[0] == 'f' && w[1] == 'a' && w[2] == 'l' && w[3] == 's' && w[4] == 'e' {
            assert(w@ =~= seq!['f', 'a', 'l', 's', 'e']);
            return Tok::False;
        }
        if w[0] == 'm' && w[1] == 'a' && w[2] == 't' && w[3] == 'c' && w[4] == 'h' {
            assert(w@ =~= seq!['m', 'a', 't', 'c', 'h']);
            return Tok::Match;
        }
    }
    proof {
        lemma_no_keyword(w@);
    }
    Tok::Identifier
}

/// A word that differs from each keyword in its length or in a character
/// is an identifier.
proof fn lemma_no_keyword(w: Seq<char>)
    requires
        !(w.len() == 2 && w[0] == 'e' && w[1] == 'f'),
        !(w.len() == 2 && w[0] == 'e' && w[1] == 'l'),
        !(w.len() == 2 && w[0] == 'i' && w[1] == 'f'),
        !(w.len() == 2 && w[0] == 'i' && w[1] == 'n'),
        !(w.len() == 2 && w[0] == 'f' && w[1] == 'n'),
        !(w.len() == 2 && w[0] == 'o' && w[1] == 'r'),
        !(w.len() == 3 && w[0] == 'a' && w[1] == 'n' && w[2] == 'd'),
        !(w.len() == 3 && w[0] == 'f' && w[1] == 'o' && w[2] == 'r'),
        !(w.len() == 3 && w[0] == 'n' && w[1] == 'o' && w[2] == 't'),
        !(w.len() == 3 && w[0] == 'r' && w[1] == 'e' && w[2] == 't'),
        !(w.len() == 4 && w[0] == 'l' && w[1] == 'o' && w[2] == 'o' && w[3] == 'p'),
        !(w.len() == 4 && w[0] == 't' && w[1] == 'r' && w[2] == 'u' && w[3] == 'e'),
        !(w.len() == 5 && w[0] == 'b' && w[1] == 'r' && w[2] == 'e' && w[3] == 'a' && w[4] == 'k'),
        !(w.len() == 5 && w[0] == 'f' && w[1] == 'a' && w[2] == 'l' && w[3] == 's' && w[4] == 'e'),
        !(w.len() == 5 && w[0] == 'm' && w[1] == 'a' && w[2] == 't' && w[3] == 'c' && w[4] == 'h'),
    ensures
        keyword(w) == Tok::Identifier,
{
    assert(seq!['e', 'f'].len() == 2 && seq!['e', 'f'][0] == 'e' && seq!['e', 'f'][1] == 'f');
    assert(seq!['e', 'l'].len() == 2 && seq!['e', 'l'][0] == 'e' && seq!['e', 'l'][1] == 'l');
    assert(seq!['i', 'f'].len() == 2 && seq!['i', 'f'][0] == 'i' && seq!['i', 'f'][1] == 'f');
    assert(seq!['i', 'n'].len() == 2 && seq!['i', 'n'][0] == 'i' && seq!['i', 'n'][1] == 'n');
    assert(seq!['f', 'n'].len() == 2 && seq!['f', 'n'][0] == 'f' && seq!['f', 'n'][1] == 'n');
    assert(seq!['o', 'r'].len() == 2 && seq!['o', 'r'][0] == 'o' && seq!['o', 'r'][1] == 'r');
    let and = seq!['a', 'n', 'd'];
    assert(and.len() == 3 && and[0] == 'a' && and[1] == 'n' && and[2] == 'd');
    let for_ = seq!['f', 'o', 'r'];
    assert(for_.len() == 3 && for_[0] == 'f' && for_[1] == 'o' && for_[2] == 'r');
    let not = seq!['n', 'o', 't'];
    assert(not.len() == 3 && not[0] == 'n' && not[1] == 'o' && not[2] == 't');
    let ret = seq!['r', 'e', 't'];
    assert(ret.len() == 3 && ret[0] == 'r' && ret[1] == 'e' && ret[2] == 't');
    let loop_ = seq!['l', 'o', 'o', 'p'];
    assert(loop_.len() == 4 && loop_[0] == 'l' && loop_[1] == 'o' && loop_[2] == 'o' && loop_[3]
        == 'p');
    let true_ = seq!['t', 'r', 'u', 'e'];
    assert(true_.len() == 4 && true_[0] == 't' && true_[1] == 'r' && true_[2] == 'u' && true_[3]
        == 'e');
    let break_ = seq!['b', 'r', 'e', 'a', 'k'];
    assert(break_.len() == 5 && break_[0] == 'b' && break_[1] == 'r' && break_[2] == 'e'
        && break_[3] == 'a' && break_[4] == 'k');
    let false_ = seq!['f', 'a', 'l', 's', 'e'];
    assert(false_.len() == 5 && false_[0] == 'f' && false_[1] == 'a' && false_[2] == 'l'
        && false_[3] == 's' && false_[4] == 'e');
    let match_ = seq!['m', 'a', 't', 'c', 'h'];
    assert(match_.len() == 5 && match_[0] == 'm' && match_[1] == 'a' && match_[2] == 't'
        && match_[3] == 'c' && match_[4] == 'h');
}

/// Matches an identifier or a keyword.
pub fn identifier(advancer: &mut CharAdvancer) -> (r: TokMatch)
    requires
        old(advancer)@.start == old(advancer)@.peek,
    ensures
        taken(
            old(advancer)@,
            final(advancer)@,
            identifier_at(old(advancer)@.items, old(advancer)@.peek),
            r,
        ),
{
    // Read for what it says of the cursor: the positions lie within the
    // characters.
    let _ = advancer.pos();
    if advancer.one(CharClass::IdentifierStart).is_none() {
        return None;
    }
    proof {
        lemma_run_end(advancer@.items, advancer@.peek, CharClass::IdentifierPart);
    }
    advancer.zero_or_more(CharClass::IdentifierPart);
    let tok = try_keyword(advancer);
    advancer.consume();
    Some((tok, advancer.pos()))
}

/// Matches a run of digits.
pub fn digits(advancer: &mut CharAdvancer) -> (r: TokMatch)
    requires
        old(advancer)@.start == old(advancer)@.peek,
    ensures
        taken(
            old(advancer)@,
            final(advancer)@,
            digits_at(old(advancer)@.items, old(advancer)@.peek),
            r,
        ),
{
    // Read for what it says of the cursor: the positions lie within the
    // characters.
    let _ = advancer.pos();
    proof {
        lemma_run_end(advancer@.items, advancer@.peek, CharClass::Digit);
    }
    if advancer.one_or_more(CharClass::Digit).is_none() {
        return None;
    }
    advancer.consume();
    Some((Tok::Digits, advancer.pos()))
}


/// Matches the token that begins at the cursor: tries each matcher in turn
/// and returns what the first one finds.
pub fn run_matchers(advancer: &mut CharAdvancer) -> (r: TokMatch)
    requires
        old(advancer)@.start == old(advancer)@.peek,
    ensures
        taken(
            old(advancer)@,
            final(advancer)@,
            token_at(old(advancer)@.items, old(advancer)@.peek),
            r,
        ),
{
    // Read for what it says of the cursor: the positions lie within the
    // characters.
    let _ = advancer.pos();
    proof {
        lemma_run_end(advancer@.items, advancer@.peek, ' ');
    }
    if let Some(found) = space_line_end(advancer) {
        return Some(found);
    }
    if let Some(found) = double_asterisk(advancer) {
        return Some(found);
    }
    if let Some(found) = double_equals(advancer) {
        return Some(found);
    }
    if let Some(found) = exclamation_equals(advancer) {
        return Some(found);
    }
    if let Some(found) = less_than_equals(advancer) {
        return Some(found);
    }
    if let Some(found) = greater_than_equals(advancer) {
        return Some(found);
    }
    if let Some(found) = plus_equals(advancer) {
        return Some(found);
    }
    if let Some(found) = minus_equals(advancer) {
        return Some(found);
    }
    if let Some(found) = asterisk_equals(advancer) {
        return Some(found);
    }
    if let Some(found) = slash_equals(advancer) {
        return Some(found);
    }
    if let Some(found) = double_full_stop(advancer) {
        return Some(found);
    }
    if let Some(found) = equals(advancer) {
        return Some(found);
    }
    if let Some(found) = plus(advancer) {
        return Some(found);
    }
    if let Some(found) = minus(advancer) {
        return Some(found);
    }
    if let Some(found) = asterisk(advancer) {
        return Some(found);
    }
    if let Some(found) = slash(advancer) {
        return Some(found);
    }
    if let Some(found) = vertical_bar(advancer) {
        return Some(found);
    }
    if let Some(found) = colon(advancer) {
        return Some(found);
    }
    if let Some(found) = caret(advancer) {
        return Some(found);
    }
    if let Some(found) = paren_left(advancer) {
        return Some(found);
    }
    if let Some(found) = paren_right(advancer) {
        return Some(found);
    }
    if let Some(found) = square_bracket_left(advancer) {
        return Some(found);
    }
    if let Some(found) = square_bracket_right(advancer) {
        return Some(found);
    }
    if let Some(found) = less_than(advancer) {
        return Some(found);
    }
    if let Some(found) = greater_than(advancer) {
        return Some(found);
    }
    if let Some(found) = curly_bracket_left(advancer) {
        return Some(found);
    }
    if let Some(found) = curly_backet_right(advancer) {
        return Some(found);
    }
    if let Some(found) = identifier(advancer) {
        return Some(found);
    }
    if let Some(found) = digits(advancer) {
        return Some(found);
    }
    if let Some(found) = full_stop(advancer) {
        return Some(found);
    }
    None
}


/// Why characters are not tokens.
#[derive(Debug, Clone, Copy, PartialEq, Eq, Structural)]
pub enum LexError {
    /// No token begins at this line and column.
    Unrecognized { line: usize, col: usize },
    /// A string holds the end of a line, which ends at this line and
    /// column.
    NewLineInString { line: usize, col: usize },
}

/// How a string goes on after its opening apostrophe.
pub enum Quoted {
    /// It is closed; the number is the position after the closing
    /// apostrophe.
    Closed(int),
    /// The characters end before it is closed, or a backslash is followed
    /// by a character that it cannot escape.
    Broken,
    /// It holds the end of a line; the number is the position after it.
    NewLine(int),
}

/// How the string goes on whose next character is at `at`.
pub open spec fn quoted(s: Seq<char>, at: int) -> Quoted
    decreases s.len() - at,
{
    if at < 0 || at >= s.len() {
        Quoted::Broken
    } else if s[at] == '\\' {
        if at + 1 < s.len() && escapes().contains(s[at + 1]) {
            quoted(s, at + 2)
        } else {
            Quoted::Broken
        }
    } else if s[at] == '\'' {
        Quoted::Closed(at + 1)
    } else if s[at] == '\n' || s[at] == '\r' {
        Quoted::NewLine(at + 1)
    } else {
        quoted(s, at + 1)
    }
}

/// What `quoted` names lies after `at` and within the characters.
pub proof fn lemma_quoted_advances(s: Seq<char>, at: int)
    requires
        0 <= at,
    ensures
        quoted(s, at) matches Quoted::Closed(end) ==> at < end <= s.len(),
        quoted(s, at) matches Quoted::NewLine(end) ==> at < end <= s.len(),
    decreases s.len() - at,
{
    if at < s.len() {
        if s[at] == '\\' {
            if at + 1 < s.len() && escapes().contains(s[at + 1]) {
                lemma_quoted_advances(s, at + 2);
            }
        } else if s[at] == '\'' {
        } else if s[at] == '\n' || s[at] == '\r' {
        } else {
            lemma_quoted_advances(s, at + 1);
        }
    }
}

/// The tokens so far: their kinds, where they stand, the position after
/// the last of them, and the line and column at which the next one begins.
pub struct Record {
    pub toks: Seq<Tok>,
    pub metas: Seq<TokMeta>,
    pub end: int,
    pub line: int,
    pub col: int,
}

impl Record {
    /// No tokens, at the first column of the first line.
    pub open spec fn start() -> Record {
        Record { toks: Seq::empty(), metas: Seq::empty(), end: 0, line: 1, col: 1 }
    }

    /// The record after a token of kind `tok` that ends at `end`, on the
    /// same line.
    pub open spec fn pushed(self, tok: Tok, end: int) -> Record {
        Record {
            toks: self.toks.push(tok),
            metas: self.metas.push(
                TokMeta {
                    span: (end - self.end) as usize,
                    end: end as usize,
                    line: self.line as usize,
                    col: self.col as usize,
                },
            ),
            end,
            line: self.line,
            col: self.col + (end - self.end),
        }
    }

    /// The record after a token of kind `tok` that ends at `end`; the end of
    /// a line begins a new line.
    pub open spec fn token(self, tok: Tok, end: int) -> Record {
        let pushed = self.pushed(tok, end);
        if tok == Tok::LineEnd {
            Record { line: pushed.line + 1, col: 1, ..pushed }
        } else {
            pushed
        }
    }

    /// The record after a string whose opening apostrophe is at `from` and
    /// which ends at `end`: an apostrophe, the text between the two unless
    /// it is empty, and an apostrophe.
    pub open spec fn string(self, from: int, end: int) -> Record {
        let opened = self.pushed(Tok::Apostrophe, from + 1);
        let filled = if from + 1 != end - 1 {
            opened.pushed(Tok::Text, end - 1)
        } else {
            opened
        };
        filled.pushed(Tok::Apostrophe, end)
    }

    /// The record at the end of the characters: the last token is the end
    /// of a line, which is added, spanning nothing, where it is missing.
    pub open spec fn finished(self) -> Record {
        if self.toks.len() > 0 && self.toks.last() == Tok::LineEnd {
            self
        } else {
            self.pushed(Tok::LineEnd, self.end)
        }
    }

    /// The tokens stand one after the other, from the first character to
    /// position `end`, with nothing between them.
    #[verifier::opaque]
    pub open spec fn tiled(self) -> bool {
        &&& self.toks.len() == self.metas.len()
        &&& forall|i: int|
            0 <= i < self.metas.len() ==> (#[trigger] self.metas[i]).end - self.metas[i].span == if i
                == 0 {
                0
            } else {
                self.metas[i - 1].end as int
            }
        &&& if self.metas.len() == 0 {
            self.end == 0
        } else {
            self.metas.last().end == self.end
        }
    }

    /// What holds of the record of a tokenizer over `len` characters.
    pub open spec fn wf(self, len: int) -> bool {
        &&& 0 <= self.end <= len
        &&& 1 <= self.col <= self.end + 1
        &&& 1 <= self.line <= self.end + 1
        &&& self.tiled()
    }

    /// A token that ends within the characters keeps the record
    /// well-formed.
    pub proof fn lemma_pushed(self, tok: Tok, end: int, len: int)
        requires
            self.wf(len),
            self.end <= end <= len,
            len <= usize::MAX,
        ensures
            self.pushed(tok, end).wf(len),
            self.end < end ==> self.token(tok, end).wf(len),
    {
        reveal(Record::tiled);
        let after = self.pushed(tok, end);
        assert forall|i: int| 0 <= i < after.metas.len() implies (#[trigger] after.metas[i]).end
            - after.metas[i].span == if i == 0 {
            0
        } else {
            after.metas[i - 1].end as int
        } by {
            if i < self.metas.len() {
                assert(after.metas[i] == self.metas[i]);
            }
        }
        let next = self.token(tok, end);
        assert(next.metas == after.metas);
    }
}

/// The error of a character that begins no token.
pub open spec fn unrecognized(record: Record) -> LexError {
    LexError::Unrecognized { line: record.line as usize, col: record.col as usize }
}

/// What the characters from `from` on come to after the tokens in `record`:
/// all the tokens, or the first error.
pub open spec fn lex(s: Seq<char>, record: Record, from: int) -> Result<Record, LexError>
    decreases s.len() - from,
    via lex_decreases
{
    if from < 0 || from >= s.len() {
        Ok(record.finished())
    } else if s[from] == '\'' {
        match quoted(s, from + 1) {
            Quoted::Closed(end) => lex(s, record.string(from, end), end),
            Quoted::Broken => Err(unrecognized(record.pushed(Tok::Apostrophe, from + 1))),
            Quoted::NewLine(end) => Err(
                LexError::NewLineInString {
                    line: record.line as usize,
                    col: (record.col + (end - from)) as usize,
                },
            ),
        }
    } else {
        match token_at(s, from) {
            Some((tok, end)) => lex(s, record.token(tok, end), end),
            None => Err(unrecognized(record)),
        }
    }
}

#[via_fn]
proof fn lex_decreases(s: Seq<char>, record: Record, from: int) {
    if 0 <= from < s.len() {
        lemma_token_advances(s, from);
        lemma_quoted_advances(s, from + 1);
    }
}

/// What the characters come to: all their tokens, or the first error.
pub open spec fn lex_all(s: Seq<char>) -> Result<Record, LexError> {
    lex(s, Record::start(), 0)
}

/// What a tokenizer is: its cursor over the characters, and the tokens so
/// far.
pub struct Lexing {
    pub cursor: Cursor<char>,
    pub record: Record,
}

impl Lexing {
    /// The cursor has nothing pending.
    pub open spec fn settled(self) -> bool {
        self.cursor.start == self.cursor.peek
    }

    /// The cursor has nothing pending and stands after the last token.
    pub open spec fn synced(self) -> bool {
        self.settled() && self.cursor.start == self.record.end
    }

    /// The record is well-formed, the cursor lies within the characters,
    /// and there is room to count one past them.
    pub open spec fn wf(self) -> bool {
        &&& self.record.wf(self.cursor.items.len() as int)
        &&& self.cursor.items.len() < usize::MAX
        &&& 0 <= self.cursor.start <= self.cursor.peek <= self.cursor.items.len()
    }

    /// The same tokenizer with the cursor committed at `at`.
    pub open spec fn moved(self, record: Record) -> Lexing {
        Lexing {
            cursor: Cursor { items: self.cursor.items, start: record.end, peek: record.end },
            record,
        }
    }
}

/// Steps over a string from after its opening apostrophe, which is pending.
/// Returns `Ok(true)` where the string is closed, with the cursor after
/// the closing apostrophe. Where the string breaks off, returns
/// `Ok(false)` and gives up what was pending. Where it holds the end of a
/// line, returns the position after that.
fn rest_of_string(advancer: &mut CharAdvancer) -> (r: Result<bool, usize>)
    ensures
        match quoted(old(advancer)@.items, old(advancer)@.peek) {
            Quoted::Closed(end) => r == Ok::<bool, usize>(true) && final(advancer)@ == old(
                advancer,
            )@.at(end),
            Quoted::Broken => r == Ok::<bool, usize>(false) && final(advancer)@ == old(advancer)@.at(
                old(advancer)@.start,
            ),
            Quoted::NewLine(end) => r == Err::<bool, usize>(end as usize),
        },
{
    let ghost s = advancer@.items;
    let ghost first = advancer@.peek;
    let ghost start = advancer@.start;
    let escapes = ['n', '\'', '\\', 'r', 't', '0'];
    proof {
        assert(escapes@ =~= self::escapes());
    }
    let _ = advancer.pos();
    loop
        invariant_except_break
            quoted(s, first) == quoted(s, advancer@.peek),
        invariant
            old(advancer)@ == (Cursor { items: s, start, peek: first }),
            advancer@ == (Cursor { items: s, start, peek: advancer@.peek }),
            0 <= first <= advancer@.peek <= s.len(),
            escapes@ == self::escapes(),
        ensures
            quoted(s, first) == Quoted::Closed(advancer@.peek),
        decreases s.len() - advancer@.peek,
    {
        let c = match advancer.one(CharClass::Any) {
            Some(c) => *c,
            None => {
                return Ok(false);
            },
        };
        if c == '\\' {
            if advancer.one(escapes.as_slice()).is_none() {
                return Ok(false);
            }
        } else if c == '\'' {
            break ;
        } else if c == '\n' || c == '\r' {
            return Err(advancer.pos());
        }
    }
    Ok(true)
}

/// Turns characters into tokens, one token or one string at a time.
pub struct Tokenizer<'s> {
    toks: Vec<Tok>,
    toks_meta: Vec<TokMeta>,
    end: usize,
    line: usize,
    col: usize,
    advancer: CharAdvancer<'s>,
}

impl<'s> View for Tokenizer<'s> {
    type V = Lexing;

    closed spec fn view(&self) -> Lexing {
        Lexing {
            cursor: self.advancer@,
            record: Record {
                toks: self.toks@,
                metas: self.toks_meta@,
                end: self.end as int,
                line: self.line as int,
                col: self.col as int,
            },
        }
    }
}

impl<'s> Tokenizer<'s> {
    /// A tokenizer at the beginning of `chars`.
    pub fn new(chars: &'s [char]) -> (r: Self)
        requires
            chars@.len() < usize::MAX,
        ensures
            r@ == (Lexing {
                cursor: Cursor { items: chars@, start: 0, peek: 0 },
                record: Record::start(),
            }),
            r@.wf(),
            r@.synced(),
    {
        proof {
            reveal(Record::tiled);
        }
        Tokenizer {
            toks: Vec::new(),
            toks_meta: Vec::new(),
            end: 0,
            line: 1,
            col: 1,
            advancer: CharAdvancer::new(chars),
        }
    }

    /// The tokens so far and where they stand.
    pub fn destructure(self) -> (r: (Vec<Tok>, Vec<TokMeta>))
        ensures
            r.0@ == self@.record.toks,
            r.1@ == self@.record.metas,
    {
        let Tokenizer { toks, toks_meta, end: _, line: _, col: _, advancer: _ } = self;
        (toks, toks_meta)
    }

    /// Adds a token of kind `tok` that ends at `end`.
    fn push(&mut self, tok: Tok, end: usize)
        requires
            old(self)@.wf(),
            old(self)@.record.end <= end <= old(self)@.cursor.items.len(),
        ensures
            final(self)@ == (Lexing {
                cursor: old(self)@.cursor,
                record: old(self)@.record.pushed(tok, end as int),
            }),
            final(self)@.wf(),
    {
        proof {
            self@.record.lemma_pushed(tok, end as int, self@.cursor.items.len() as int);
        }
        self.toks.push(tok);
        let span = end - self.end;
        self.toks_meta.push(TokMeta { span, end, line: self.line, col: self.col });
        self.col += span;
        self.end = end;
    }

    /// Matches a string, if one begins at the cursor. Returns `Ok(true)`
    /// where the string is closed. Where no string begins, nothing changes;
    /// where one begins and breaks off, its opening apostrophe is added and
    /// the cursor stays.
    pub fn string(&mut self) -> (r: Result<bool, LexError>)
        requires
            old(self)@.wf(),
            old(self)@.synced(),
        ensures
            ({
                let before = old(self)@;
                let s = before.cursor.items;
                let from = before.cursor.start;
                if char_at(s, from) != Some('\'') {
                    r == Ok::<bool, LexError>(false) && final(self)@ == before
                } else {
                    match quoted(s, from + 1) {
                        Quoted::Closed(end) => r == Ok::<bool, LexError>(true) && final(self)@
                            == before.moved(before.record.string(from, end)) && final(self)@.wf(),
                        Quoted::Broken => r == Ok::<bool, LexError>(false) && final(self)@ == (Lexing {
                            cursor: before.cursor,
                            record: before.record.pushed(Tok::Apostrophe, from + 1),
                        }) && final(self)@.wf(),
                        Quoted::NewLine(end) => r == Err::<bool, LexError>(
                            LexError::NewLineInString {
                                line: before.record.line as usize,
                                col: (before.record.col + (end - from)) as usize,
                            },
                        ),
                    }
                }
            }),
    {
        if self.advancer.one('\'').is_none() {
            return Ok(false);
        }
        let start = self.advancer.pos();
        self.push(Tok::Apostrophe, start);
        proof {
            lemma_quoted_advances(self@.cursor.items, start as int);
        }
        match rest_of_string(&mut self.advancer) {
            Ok(true) => {},
            Ok(false) => {
                return Ok(false);
            },
            Err(pos) => {
                return Err(
                    LexError::NewLineInString { line: self.line, col: self.col + (pos - start) },
                );
            },
        }
        let after = self.advancer.pos();
        if start != after - 1 {
            self.push(Tok::Text, after - 1);
        }
        self.push(Tok::Apostrophe, after);
        self.advancer.consume();
        Ok(true)
    }

    /// Matches a string, if one begins at the cursor and is closed. Where
    /// one begins and breaks off, its opening apostrophe is added and the
    /// cursor stays.
    ///
    /// The string holds no end of a line.
    pub fn match_string(&mut self) -> (r: Option<()>)
        requires
            old(self)@.wf(),
            old(self)@.synced(),
            !(char_at(old(self)@.cursor.items, old(self)@.cursor.start) == Some('\'') && quoted(
                old(self)@.cursor.items,
                old(self)@.cursor.start + 1,
            ) is NewLine),
        ensures
            ({
                let before = old(self)@;
                let s = before.cursor.items;
                let from = before.cursor.start;
                if char_at(s, from) != Some('\'') {
                    r is None && final(self)@ == before
                } else {
                    match quoted(s, from + 1) {
                        Quoted::Closed(end) => r is Some && final(self)@ == before.moved(
                            before.record.string(from, end),
                        ) && final(self)@.wf(),
                        _ => r is None && final(self)@ == (Lexing {
                            cursor: before.cursor,
                            record: before.record.pushed(Tok::Apostrophe, from + 1),
                        }) && final(self)@.wf(),
                    }
                }
            }),
    {
        match self.string() {
            Ok(true) => Some(()),
            _ => None,
        }
    }

    /// Matches the token at the cursor, which is no string.
    pub fn match_tok(&mut self)
        requires
            old(self)@.wf(),
            old(self)@.synced(),
            token_at(old(self)@.cursor.items, old(self)@.cursor.start) is Some,
        ensures
            ({
                let before = old(self)@;
                let (tok, end) = token_at(before.cursor.items, before.cursor.start).unwrap();
                final(self)@ == before.moved(before.record.token(tok, end))
            }),
            final(self)@.wf(),
            final(self)@.synced(),
    {
        self.token();
    }

    /// Matches the token at the cursor, if there is one and it is no string.
    fn token(&mut self) -> (r: bool)
        requires
            old(self)@.wf(),
            old(self)@.synced(),
        ensures
            match token_at(old(self)@.cursor.items, old(self)@.cursor.start) {
                Some((tok, end)) => r && final(self)@ == old(self)@.moved(
                    old(self)@.record.token(tok, end),
                ) && final(self)@.wf() && final(self)@.synced(),
                None => !r && final(self)@ == old(self)@,
            },
    {
        proof {
            lemma_token_advances(self@.cursor.items, self@.cursor.start);
        }
        match run_matchers(&mut self.advancer) {
            Some((tok, end)) => {
                proof {
                    self@.record.lemma_pushed(tok, end as int, self@.cursor.items.len() as int);
                }
                let after_new_line = tok == Tok::LineEnd;
                self.push(tok, end);
                if after_new_line {
                    self.line += 1;
                    self.col = 1;
                }
                true
            },
            None => false,
        }
    }

    /// Matches all the tokens from the cursor on, and ends them with the
    /// end of a line. Returns the first error where a character begins no
    /// token or a string holds the end of a line.
    pub fn try_tokenize(self) -> (r: Result<Self, LexError>)
        requires
            self@.wf(),
            self@.synced(),
        ensures
            match r {
                Ok(done) => {
                    &&& lex(self@.cursor.items, self@.record, self@.cursor.start) == Ok::<
                        Record,
                        LexError,
                    >(done@.record)
                    &&& done@.wf()
                    &&& done@.record.end == self@.cursor.items.len()
                },
                Err(e) => lex(self@.cursor.items, self@.record, self@.cursor.start) == Err::<
                    Record,
                    LexError,
                >(e),
            },
    {
        let ghost s = self@.cursor.items;
        let ghost goal = lex(self@.cursor.items, self@.record, self@.cursor.start);
        let mut this = self;
        while !this.advancer.completed()
            invariant
                this@.wf(),
                this@.synced(),
                this@.cursor.items == s,
                s == self@.cursor.items,
                goal == lex(self@.cursor.items, self@.record, self@.cursor.start),
                lex(s, this@.record, this@.cursor.start) == goal,
            decreases s.len() - this@.cursor.start,
        {
            let ghost from = this@.cursor.start;
            proof {
                lemma_token_advances(s, from);
                lemma_quoted_advances(s, from + 1);
            }
            match this.string() {
                Ok(true) => {},
                Ok(false) => {
                    if this.end != this.advancer.pos() {
                        return Err(LexError::Unrecognized { line: this.line, col: this.col });
                    }
                    if !this.token() {
                        return Err(LexError::Unrecognized { line: this.line, col: this.col });
                    }
                },
                Err(e) => {
                    return Err(e);
                },
            }
        }
        let n = this.toks.len();
        let line_end = n > 0 && this.toks[n - 1] == Tok::LineEnd;
        if !line_end {
            let end = this.end;
            this.push(Tok::LineEnd, end);
        }
        Ok(this)
    }

    /// Matches all the tokens from the cursor on, and ends them with the
    /// end of a line.
    ///
    /// Every character from the cursor on belongs to a token, and no string
    /// holds the end of a line.
    pub fn tokenize(self) -> (r: Self)
        requires
            self@.wf(),
            self@.synced(),
            lex(self@.cursor.items, self@.record, self@.cursor.start) is Ok,
        ensures
            lex(self@.cursor.items, self@.record, self@.cursor.start) == Ok::<Record, LexError>(
                r@.record,
            ),
            r@.wf(),
            r@.record.end == self@.cursor.items.len(),
    {
        match self.try_tokenize() {
            Ok(done) => done,
            Err(_) => vstd::pervasive::unreached(),
        }
    }
}

/// The tokens of `chars` and where they stand, or the first error: a
/// character that begins no token, or a string that holds the end of a
/// line.
pub fn try_tokenize(chars: &[char]) -> (r: Result<(Vec<Tok>, Vec<TokMeta>), LexError>)
    requires
        chars@.len() < usize::MAX,
    ensures
        match r {
            Ok((toks, toks_meta)) => {
                &&& lex_all(chars@) matches Ok(record)
                &&& toks@ == record.toks
                &&& toks_meta@ == record.metas
                &&& toks@.len() == toks_meta@.len()
                &&& record.tiled()
                &&& record.end == chars@.len()
            },
            Err(e) => lex_all(chars@) == Err::<Record, LexError>(e),
        },
{
    proof {
        reveal(Record::tiled);
    }
    match Tokenizer::new(chars).try_tokenize() {
        Ok(done) => Ok(done.destructure()),
        Err(e) => Err(e),
    }
}

/// The tokens of `chars` and where they stand.
///
/// Every character belongs to a token, and no string holds the end of a
/// line.
pub fn tokenize(chars: &[char]) -> (r: (Vec<Tok>, Vec<TokMeta>))
    requires
        chars@.len() < usize::MAX,
        lex_all(chars@) is Ok,
    ensures
        lex_all(chars@) matches Ok(record) && r.0@ == record.toks && r.1@ == record.metas
            && record.tiled() && record.end == chars@.len(),
        r.0@.len() == r.1@.len(),
{
    proof {
        reveal(Record::tiled);
    }
    Tokenizer::new(chars).tokenize().destructure()
}

} // verus!

