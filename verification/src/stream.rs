//! The parser's view of the pattern: the characters not yet read, with
//! look-ahead, and the number of capture groups opened so far.

use vstd::prelude::*;
use vstd::string::StrSliceExecFns;
use itertools::PeekNth;
use std::str::Chars;
use crate::node::{ParserError, ParserErrorView};

verus! {

/// `itertools::PeekNth`, the look-ahead adaptor that holds the pattern's
/// characters. Nothing inside it is visible to proofs.
#[verifier::external_type_specification]
#[verifier::external_body]
#[verifier::reject_recursive_types(I)]
pub struct ExPeekNth<I: Iterator>(PeekNth<I>);

/// The characters that a `PeekNth` over the characters of a text will still
/// hand out, in order: those it has buffered while peeking, then those left
/// in the text below it.
pub uninterp spec fn pending(stream: PeekNth<Chars<'_>>) -> Seq<char>;

/// `itertools::peek_nth` on the characters of a text: a fresh stream that
/// will hand out exactly those characters.
#[verifier::external_body]
fn stream_open<'a>(input: &'a str) -> (stream: PeekNth<Chars<'a>>)
    ensures
        pending(stream) == input@,
{
    itertools::peek_nth(input.chars())
}

/// `PeekNth::peek_nth`: the character `n` places ahead, if there is one. The
/// stream hands out the same characters afterwards as before. The outside
/// function adds one to `n`, so the largest number is left out.
#[verifier::external_body]
fn stream_peek_nth(stream: &mut PeekNth<Chars<'_>>, n: usize) -> (found: Option<char>)
    requires
        n < usize::MAX,
    ensures
        pending(*final(stream)) == pending(*old(stream)),
        found == if n < pending(*old(stream)).len() {
            Some(pending(*old(stream))[n as int])
        } else {
            None::<char>
        },
{
    stream.peek_nth(n).copied()
}

/// `PeekNth::next`: hands out the first pending character and drops it from
/// the stream, or gives nothing when none is pending.
#[verifier::external_body]
fn stream_next(stream: &mut PeekNth<Chars<'_>>) -> (found: Option<char>)
    ensures
        found == if pending(*old(stream)).len() > 0 {
            Some(pending(*old(stream))[0])
        } else {
            None::<char>
        },
        pending(*final(stream)) == if pending(*old(stream)).len() > 0 {
            pending(*old(stream)).skip(1)
        } else {
            pending(*old(stream))
        },
{
    stream.next()
}

/// `PeekNth::clone`: a second stream with the same pending characters.
#[verifier::external_body]
fn stream_fork<'a>(stream: &PeekNth<Chars<'a>>) -> (copy: PeekNth<Chars<'a>>)
    ensures
        pending(copy) == pending(*stream),
{
    stream.clone()
}

/// std's `Iterator::collect` on a `PeekNth`, which hands out what it has
/// buffered and then what is left below it: the pending characters, as a
/// text.
#[verifier::external_body]
fn stream_collect(stream: PeekNth<Chars<'_>>) -> (text: String)
    ensures
        text@ == pending(stream),
{
    stream.collect::<String>()
}

/// Whether the character has a meaning of its own in a pattern and so must
/// be escaped to stand for itself.
pub open spec fn is_escaped(c: char) -> bool {
    c == '$' || c == '(' || c == ')' || c == '*' || c == '+' || c == '-' || c == '.' || c == '<'
        || c == '=' || c == '>' || c == '?' || c == '[' || c == '\\' || c == ']' || c == '^' || c
        == '{' || c == '|' || c == '}'
}

/// Whether the character, after a backslash, names a character class.
pub open spec fn is_class_letter(c: char) -> bool {
    c == 'w' || c == 'W' || c == 's' || c == 'S' || c == 'd' || c == 'D'
}

/// Whether the character, after a backslash, starts an anchor.
pub open spec fn is_anchor_letter(c: char) -> bool {
    c == 'A' || c == 'z' || c == 'Z' || c == 'G' || c == 'b' || c == 'B'
}

/// Whether the text has the character `c` at place `i`.
pub open spec fn has_at(s: Seq<char>, i: int, c: char) -> bool {
    0 <= i < s.len() && s[i] == c
}

/// Whether the text agrees with `chars` at every place that both have.
pub open spec fn agrees_with(s: Seq<char>, chars: Seq<char>) -> bool {
    forall|i: int| 0 <= i < chars.len() && i < s.len() ==> s[i] == chars[i]
}

pub open spec fn can_parse_character_spec(s: Seq<char>) -> bool {
    s.len() > 0 && !is_escaped(s[0])
}

pub open spec fn can_parse_character_range_spec(s: Seq<char>) -> bool {
    s.len() > 2 && !is_escaped(s[0]) && s[1] == '-' && !is_escaped(s[2])
}

pub open spec fn can_parse_character_class_spec(s: Seq<char>) -> bool {
    s.len() > 1 && s[0] == '\\' && is_class_letter(s[1])
}

pub open spec fn can_parse_escaped_spec(s: Seq<char>) -> bool {
    s.len() > 1 && s[0] == '\\' && is_escaped(s[1])
}

pub open spec fn can_parse_match_spec(s: Seq<char>) -> bool {
    has_at(s, 0, '.') || can_parse_character_class_spec(s) || has_at(s, 0, '[')
        || can_parse_character_spec(s) || can_parse_escaped_spec(s)
}

pub open spec fn can_parse_anchor_spec(s: Seq<char>) -> bool {
    s.len() > 0 && (s[0] == '^' || s[0] == '$' || (s[0] == '\\' && s.len() > 1 && is_anchor_letter(
        s[1],
    )))
}

pub open spec fn can_parse_sub_expression_item_spec(s: Seq<char>) -> bool {
    has_at(s, 0, '(') || can_parse_match_spec(s) || can_parse_anchor_spec(s)
}

pub open spec fn can_parse_quantifier_spec(s: Seq<char>) -> bool {
    s.len() > 0 && (s[0] == '+' || s[0] == '*' || s[0] == '?' || s[0] == '{')
}

/// Tests [`is_escaped`].
pub fn escaped(c: char) -> (r: bool)
    ensures
        r == is_escaped(c),
{
    c == '$' || c == '(' || c == ')' || c == '*' || c == '+' || c == '-' || c == '.' || c == '<'
        || c == '=' || c == '>' || c == '?' || c == '[' || c == '\\' || c == ']' || c == '^' || c
        == '{' || c == '|' || c == '}'
}

/// Tests [`is_class_letter`].
pub fn class_letter(c: char) -> (r: bool)
    ensures
        r == is_class_letter(c),
{
    c == 'w' || c == 'W' || c == 's' || c == 'S' || c == 'd' || c == 'D'
}

/// Tests [`is_anchor_letter`].
pub fn anchor_letter(c: char) -> (r: bool)
    ensures
        r == is_anchor_letter(c),
{
    c == 'A' || c == 'z' || c == 'Z' || c == 'G' || c == 'b' || c == 'B'
}

/// The state of a parse: the unread rest of the pattern and the number of
/// capture groups opened so far.
#[derive(Debug)]
pub struct Parser<'a> {
    group_count: usize,
    regex: PeekNth<Chars<'a>>,
}

impl<'a> Parser<'a> {
    /// The characters not yet read.
    pub closed spec fn unread(&self) -> Seq<char> {
        pending(self.regex)
    }

    /// The number of capture groups opened so far.
    pub closed spec fn groups(&self) -> nat {
        self.group_count as nat
    }

    /// A parser at the start of `input`, with no group opened. The count of
    /// the characters is taken once, which shows that it fits a `usize`.
    pub fn new(input: &'a str) -> (parser: Parser<'a>)
        ensures
            parser.unread() == input@,
            parser.groups() == 0,
            input@.len() <= usize::MAX,
    {
        let _length: usize = input.unicode_len();
        Parser { group_count: 0, regex: stream_open(input) }
    }

    /// The next character, which stays unread.
    pub fn peek(&mut self) -> (r: Result<char, ParserError>)
        ensures
            final(self).unread() == old(self).unread(),
            final(self).groups() == old(self).groups(),
            match r {
                Ok(c) => old(self).unread().len() > 0 && c == old(self).unread()[0],
                Err(e) => old(self).unread().len() == 0 && e@ == ParserErrorView::UnexexpectedEOF,
            },
    {
        match stream_peek_nth(&mut self.regex, 0) {
            Some(c) => Ok(c),
            None => Err(ParserError::UnexexpectedEOF),
        }
    }

    /// The character `n` places ahead, which stays unread.
    pub fn peek_at(&mut self, n: usize) -> (r: Option<char>)
        requires
            n < usize::MAX,
        ensures
            final(self).unread() == old(self).unread(),
            final(self).groups() == old(self).groups(),
            r == if n < old(self).unread().len() {
                Some(old(self).unread()[n as int])
            } else {
                None::<char>
            },
    {
        stream_peek_nth(&mut self.regex, n)
    }

    pub fn group_count(&self) -> (count: usize)
        ensures
            count == self.groups(),
    {
        self.group_count
    }

    pub fn increment_group_count(&mut self)
        requires
            old(self).groups() < usize::MAX,
        ensures
            final(self).groups() == old(self).groups() + 1,
            final(self).unread() == old(self).unread(),
    {
        self.group_count += 1;
    }

    /// Reads the next character if it is `expected`; otherwise nothing is
    /// read and the error says what was expected and what is left.
    pub fn consume(&mut self, expected: char) -> (r: Result<char, ParserError>)
        ensures
            final(self).groups() == old(self).groups(),
            match r {
                Ok(c) => c == expected && has_at(old(self).unread(), 0, expected) && final(self).unread() == old(self).unread().skip(1),
                Err(e) => !has_at(old(self).unread(), 0, expected) && final(self).unread() == old(self).unread() && e@ == (if old(self).unread().len() == 0 {
                    ParserErrorView::UnexexpectedEOF
                } else {
                    ParserErrorView::UnexpectedToken(old(self).unread(), expected)
                }),
            },
    {
        match stream_peek_nth(&mut self.regex, 0) {
            Some(actual) => {
                if actual == expected {
                    let _ = stream_next(&mut self.regex);
                    Ok(expected)
                } else {
                    Err(ParserError::UnexpectedToken(self.get_remainder(), expected))
                }
            },
            None => Err(ParserError::UnexexpectedEOF),
        }
    }

    /// Drops `by` characters, or all that are left if they are fewer.
    pub fn advance_by(&mut self, by: usize)
        ensures
            final(self).groups() == old(self).groups(),
            final(self).unread() == old(self).unread().skip(
                if by <= old(self).unread().len() {
                    by as int
                } else {
                    old(self).unread().len() as int
                },
            ),
    {
        let ghost start = self.unread();
        let mut done: usize = 0;
        while done < by
            invariant
                done <= by,
                self.groups() == old(self).groups(),
                start == old(self).unread(),
                self.unread() == start.skip(
                    if done <= start.len() {
                        done as int
                    } else {
                        start.len() as int
                    },
                ),
            decreases by - done,
        {
            let _ = stream_next(&mut self.regex);
            proof {
                if done < start.len() {
                    assert(start.skip(done as int).skip(1) =~= start.skip(done + 1));
                }
            }
            done += 1;
        }
    }

    /// Whether the unread text agrees with `chars` as far as it reaches: a
    /// place beyond the end of the text is not held against it.
    pub fn matches_several(&mut self, chars: &[char]) -> (r: bool)
        ensures
            final(self).unread() == old(self).unread(),
            final(self).groups() == old(self).groups(),
            r == agrees_with(old(self).unread(), chars@),
    {
        let mut i: usize = 0;
        while i < chars.len()
            invariant
                i <= chars.len(),
                self.unread() == old(self).unread(),
                self.groups() == old(self).groups(),
                forall|j: int| 0 <= j < i && j < self.unread().len() ==> self.unread()[j] == chars@[j],
            decreases chars.len() - i,
        {
            if let Some(actual) = stream_peek_nth(&mut self.regex, i) {
                if actual != chars[i] {
                    return false;
                }
            }
            i += 1;
        }
        true
    }

    /// Reads the next character, whatever it is.
    pub fn consume_unseen(&mut self) -> (r: Result<char, ParserError>)
        ensures
            final(self).groups() == old(self).groups(),
            match r {
                Ok(c) => old(self).unread().len() > 0 && c == old(self).unread()[0] && final(self).unread() == old(self).unread().skip(1),
                Err(e) => old(self).unread().len() == 0 && final(self).unread() == old(self).unread() && e@ == ParserErrorView::UnexexpectedEOF,
            },
    {
        match stream_next(&mut self.regex) {
            Some(c) => Ok(c),
            None => Err(ParserError::UnexexpectedEOF),
        }
    }

    /// Whether the next character is `expected`.
    pub fn matches(&mut self, expected: char) -> (r: bool)
        ensures
            final(self).unread() == old(self).unread(),
            final(self).groups() == old(self).groups(),
            r == has_at(old(self).unread(), 0, expected),
    {
        if let Ok(actual) = self.peek() {
            actual == expected
        } else {
            false
        }
    }

    pub fn can_parse_group(&mut self) -> (r: bool)
        ensures
            final(self).unread() == old(self).unread(),
            final(self).groups() == old(self).groups(),
            r == has_at(old(self).unread(), 0, '('),
    {
        self.matches('(')
    }

    /// Whether any character is left.
    pub fn within_bounds(&mut self) -> (r: bool)
        ensures
            final(self).unread() == old(self).unread(),
            final(self).groups() == old(self).groups(),
            r == (old(self).unread().len() > 0),
    {
        stream_peek_nth(&mut self.regex, 0).is_some()
    }

    pub fn can_parse_character(&mut self) -> (r: bool)
        ensures
            final(self).unread() == old(self).unread(),
            final(self).groups() == old(self).groups(),
            r == can_parse_character_spec(old(self).unread()),
    {
        if let Ok(c) = self.peek() {
            !escaped(c)
        } else {
            false
        }
    }

    pub fn can_parse_character_range(&mut self) -> (r: bool)
        ensures
            final(self).unread() == old(self).unread(),
            final(self).groups() == old(self).groups(),
            r == can_parse_character_range_spec(old(self).unread()),
    {
        if let Some(c0) = stream_peek_nth(&mut self.regex, 0) {
            if !escaped(c0) {
                if let Some(hyphen) = stream_peek_nth(&mut self.regex, 1) {
                    if hyphen == '-' {
                        if let Some(c1) = stream_peek_nth(&mut self.regex, 2) {
                            return !escaped(c1);
                        }
                    }
                }
            }
        }
        false
    }

    pub fn can_parse_dot(&mut self) -> (r: bool)
        ensures
            final(self).unread() == old(self).unread(),
            final(self).groups() == old(self).groups(),
            r == has_at(old(self).unread(), 0, '.'),
    {
        self.matches('.')
    }

    pub fn can_parse_character_class(&mut self) -> (r: bool)
        ensures
            final(self).unread() == old(self).unread(),
            final(self).groups() == old(self).groups(),
            r == can_parse_character_class_spec(old(self).unread()),
    {
        if let Some(c0) = stream_peek_nth(&mut self.regex, 0) {
            if c0 == '\\' {
                if let Some(c1) = stream_peek_nth(&mut self.regex, 1) {
                    if class_letter(c1) {
                        return true;
                    }
                }
            }
        }
        false
    }

    pub fn can_parse_escaped(&mut self) -> (r: bool)
        ensures
            final(self).unread() == old(self).unread(),
            final(self).groups() == old(self).groups(),
            r == can_parse_escaped_spec(old(self).unread()),
    {
        if let Some(c0) = stream_peek_nth(&mut self.regex, 0) {
            if c0 == '\\' {
                if let Some(c1) = stream_peek_nth(&mut self.regex, 1) {
                    if escaped(c1) {
                        return true;
                    }
                }
            }
        }
        false
    }

    pub fn can_parse_character_group(&mut self) -> (r: bool)
        ensures
            final(self).unread() == old(self).unread(),
            final(self).groups() == old(self).groups(),
            r == has_at(old(self).unread(), 0, '['),
    {
        self.matches('[')
    }

    pub fn can_parse_match(&mut self) -> (r: bool)
        ensures
            final(self).unread() == old(self).unread(),
            final(self).groups() == old(self).groups(),
            r == can_parse_match_spec(old(self).unread()),
    {
        self.can_parse_dot() || self.can_parse_character_class() || self.can_parse_character_group()
            || self.can_parse_character() || self.can_parse_escaped()
    }

    pub fn can_parse_anchor(&mut self) -> (r: bool)
        ensures
            final(self).unread() == old(self).unread(),
            final(self).groups() == old(self).groups(),
            r == can_parse_anchor_spec(old(self).unread()),
    {
        if let Some(c0) = stream_peek_nth(&mut self.regex, 0) {
            if c0 == '^' || c0 == '$' {
                return true;
            } else if c0 == '\\' {
                if let Some(c1) = stream_peek_nth(&mut self.regex, 1) {
                    return anchor_letter(c1);
                }
            }
        }
        false
    }

    /// The unread text, as a value of its own. Nothing is read.
    pub fn get_remainder(&mut self) -> (rest: Box<String>)
        ensures
            final(self).unread() == old(self).unread(),
            final(self).groups() == old(self).groups(),
            rest@ == old(self).unread(),
    {
        Box::new(stream_collect(stream_fork(&self.regex)))
    }

    pub fn can_parse_sub_expression_item(&mut self) -> (r: bool)
        ensures
            final(self).unread() == old(self).unread(),
            final(self).groups() == old(self).groups(),
            r == can_parse_sub_expression_item_spec(old(self).unread()),
    {
        self.can_parse_group() || self.can_parse_match() || self.can_parse_anchor()
    }

    pub fn can_parse_quantifier(&mut self) -> (r: bool)
        ensures
            final(self).unread() == old(self).unread(),
            final(self).groups() == old(self).groups(),
            r == can_parse_quantifier_spec(old(self).unread()),
    {
        match self.peek() {
            Ok(c) => c == '+' || c == '*' || c == '?' || c == '{',
            Err(_) => false,
        }
    }

    /// A second parser in the same state.
    pub fn fork(&self) -> (copy: Parser<'a>)
        ensures
            copy.unread() == self.unread(),
            copy.groups() == self.groups(),
    {
        Parser { group_count: self.group_count, regex: stream_fork(&self.regex) }
    }
}

impl<'a> PartialEq for Parser<'a> {
    fn eq(&self, other: &Self) -> (r: bool) {
        self.group_count == other.group_count && stream_collect(stream_fork(&self.regex))
            == stream_collect(stream_fork(&other.regex))
    }
}

impl<'a> vstd::std_specs::cmp::PartialEqSpecImpl for Parser<'a> {
    open spec fn obeys_eq_spec() -> bool {
        true
    }

    /// Two parsers are equal when they have opened as many groups and have
    /// the same text left to read.
    open spec fn eq_spec(&self, other: &Self) -> bool {
        self.groups() == other.groups() && self.unread() == other.unread()
    }
}

} // verus!
