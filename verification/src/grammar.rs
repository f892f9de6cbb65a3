//! The grammar of patterns, as mathematical functions from the unread text
//! and the number of groups opened so far to a result, the text left, and the
//! new number of groups. The parser is proved to compute exactly these.

use vstd::prelude::*;
use std::num::ParseIntError;
use crate::node::{NodeView, ParserErrorView, Quantifier, UpperBound};
use crate::stream::{
    agrees_with, can_parse_character_class_spec, can_parse_character_range_spec,
    can_parse_character_spec, can_parse_escaped_spec, can_parse_quantifier_spec,
    can_parse_sub_expression_item_spec, can_parse_anchor_spec, has_at,
};
use crate::utils::RegexFlags;

verus! {

/// What one parsing step yields: its result, the text it left unread, and
/// the number of capture groups opened once it is over.
pub struct Parsed<T> {
    pub result: Result<T, ParserErrorView>,
    pub rest: Seq<char>,
    pub groups: nat,
}

pub open spec fn done<T>(value: T, rest: Seq<char>, groups: nat) -> Parsed<T> {
    Parsed { result: Ok(value), rest, groups }
}

pub open spec fn failed<T>(error: ParserErrorView, rest: Seq<char>, groups: nat) -> Parsed<T> {
    Parsed { result: Err(error), rest, groups }
}

/// Reading one given character.
pub open spec fn consume_spec(s: Seq<char>, groups: nat, expected: char) -> Parsed<char> {
    if s.len() == 0 {
        failed(ParserErrorView::UnexexpectedEOF, s, groups)
    } else if s[0] == expected {
        done(expected, s.skip(1), groups)
    } else {
        failed(ParserErrorView::UnexpectedToken(s, expected), s, groups)
    }
}

/// Reading one character, whatever it is.
pub open spec fn consume_unseen_spec(s: Seq<char>, groups: nat) -> Parsed<char> {
    if s.len() == 0 {
        failed(ParserErrorView::UnexexpectedEOF, s, groups)
    } else {
        done(s[0], s.skip(1), groups)
    }
}

/// The text after dropping `by` characters, or all of them if fewer are left.
pub open spec fn advance_spec(s: Seq<char>, by: nat) -> Seq<char> {
    s.skip(if by <= s.len() { by as int } else { s.len() as int })
}

/// The members of the class of word characters, as the pattern `\w` spells
/// them out.
pub open spec fn word_class(negated: bool) -> NodeView {
    NodeView::CharacterGroup(
        seq![
            NodeView::CharacterRange('0', '9'),
            NodeView::CharacterRange('A', 'z'),
            NodeView::CharacterRange('a', 'z'),
            NodeView::Character('-'),
        ],
        negated,
    )
}

pub open spec fn digit_class(negated: bool) -> NodeView {
    NodeView::CharacterGroup(seq![NodeView::CharacterRange('0', '9')], negated)
}

pub open spec fn space_class(negated: bool) -> NodeView {
    NodeView::CharacterGroup(
        seq![NodeView::Character(' '), NodeView::Character('\t'), NodeView::Character('\n')],
        negated,
    )
}

/// A backslash and a class letter: `\w \W \d \D \s \S`.
pub open spec fn parse_character_class_spec(s: Seq<char>, groups: nat) -> Parsed<NodeView> {
    let slash = consume_spec(s, groups, '\\');
    match slash.result {
        Err(e) => failed(e, slash.rest, groups),
        Ok(_) => {
            let letter = consume_unseen_spec(slash.rest, groups);
            match letter.result {
                Err(e) => failed(e, letter.rest, groups),
                Ok(c) => if c == 'w' {
                    done(word_class(false), letter.rest, groups)
                } else if c == 'W' {
                    done(word_class(true), letter.rest, groups)
                } else if c == 'd' {
                    done(digit_class(false), letter.rest, groups)
                } else if c == 'D' {
                    done(digit_class(true), letter.rest, groups)
                } else if c == 's' {
                    done(space_class(false), letter.rest, groups)
                } else if c == 'S' {
                    done(space_class(true), letter.rest, groups)
                } else {
                    failed(ParserErrorView::UnrecognizedAnchor(letter.rest, c), letter.rest, groups)
                },
            }
        },
    }
}

/// Two characters with a hyphen between them; the first may not sort after
/// the second.
pub open spec fn parse_character_range_spec(s: Seq<char>, groups: nat) -> Parsed<NodeView> {
    let low = consume_unseen_spec(s, groups);
    match low.result {
        Err(e) => failed(e, low.rest, groups),
        Ok(start) => {
            let hyphen = consume_spec(low.rest, groups, '-');
            match hyphen.result {
                Err(e) => failed(e, hyphen.rest, groups),
                Ok(_) => {
                    let high = consume_unseen_spec(hyphen.rest, groups);
                    match high.result {
                        Err(e) => failed(e, high.rest, groups),
                        Ok(end) => if start > end {
                            failed(
                                ParserErrorView::InvalidCharacterRange(start, end),
                                high.rest,
                                groups,
                            )
                        } else {
                            done(NodeView::CharacterRange(start, end), high.rest, groups)
                        },
                    }
                },
            }
        },
    }
}

/// A backslash and the character it escapes.
pub open spec fn parse_escaped_spec(s: Seq<char>, groups: nat) -> Parsed<NodeView> {
    let slash = consume_spec(s, groups, '\\');
    match slash.result {
        Err(e) => failed(e, slash.rest, groups),
        Ok(_) => {
            let literal = consume_unseen_spec(slash.rest, groups);
            match literal.result {
                Err(e) => failed(e, literal.rest, groups),
                Ok(c) => done(NodeView::Character(c), literal.rest, groups),
            }
        },
    }
}

/// A literal character outside a character group.
pub open spec fn parse_character_spec(s: Seq<char>, groups: nat) -> Parsed<NodeView> {
    if can_parse_escaped_spec(s) {
        parse_escaped_spec(s, groups)
    } else if !can_parse_character_spec(s) {
        failed(ParserErrorView::UnableToParseChar(s), s, groups)
    } else {
        done(NodeView::Character(s[0]), s.skip(1), groups)
    }
}

/// A literal character inside a character group: anything but the closing
/// bracket.
pub open spec fn parse_character_in_character_group_spec(s: Seq<char>, groups: nat) -> Parsed<
    NodeView,
> {
    if can_parse_escaped_spec(s) {
        parse_escaped_spec(s, groups)
    } else if has_at(s, 0, ']') {
        failed(ParserErrorView::UnableToParseChar(s), s, groups)
    } else {
        let literal = consume_unseen_spec(s, groups);
        match literal.result {
            Err(e) => failed(e, literal.rest, groups),
            Ok(c) => done(NodeView::Character(c), literal.rest, groups),
        }
    }
}

/// One member of a character group.
pub open spec fn parse_character_group_item_spec(s: Seq<char>, groups: nat) -> Parsed<NodeView> {
    if can_parse_character_class_spec(s) {
        parse_character_class_spec(s, groups)
    } else if can_parse_character_range_spec(s) {
        parse_character_range_spec(s, groups)
    } else {
        parse_character_in_character_group_spec(s, groups)
    }
}

/// The members of a character group, up to the place where no member can be
/// read. `found` holds the members read before `s`.
pub open spec fn parse_character_group_items_spec(
    s: Seq<char>,
    groups: nat,
    found: Seq<NodeView>,
) -> Parsed<Seq<NodeView>>
    decreases s.len(),
{
    let item = parse_character_group_item_spec(s, groups);
    match item.result {
        Ok(node) => if item.rest.len() < s.len() {
            parse_character_group_items_spec(item.rest, groups, found.push(node))
        } else {
            // A member always takes at least one character.
            done(found, s, groups)
        },
        Err(ParserErrorView::UnableToParseChar(_)) => done(found, item.rest, groups),
        Err(e) => failed(e, item.rest, groups),
    }
}

/// A character group: `[`, an optional `^`, at least one member, `]`.
pub open spec fn parse_character_group_spec(s: Seq<char>, groups: nat) -> Parsed<NodeView> {
    let open = consume_spec(s, groups, '[');
    match open.result {
        Err(e) => failed(e, open.rest, groups),
        Ok(_) => {
            let negated = has_at(open.rest, 0, '^');
            let body = if negated {
                open.rest.skip(1)
            } else {
                open.rest
            };
            let items = parse_character_group_items_spec(body, groups, Seq::empty());
            match items.result {
                Err(e) => failed(e, items.rest, groups),
                Ok(found) => {
                    let close = consume_spec(items.rest, groups, ']');
                    match close.result {
                        Err(e) => failed(e, close.rest, groups),
                        Ok(_) => if found.len() == 0 {
                            failed(
                                ParserErrorView::CantParseCharGroup(close.rest),
                                close.rest,
                                groups,
                            )
                        } else {
                            done(NodeView::CharacterGroup(found, negated), close.rest, groups)
                        },
                    }
                },
            }
        },
    }
}

/// What a quantifier applies to: a dot, a class, a character group or a
/// literal.
pub open spec fn parse_match_item_spec(s: Seq<char>, groups: nat) -> Parsed<NodeView> {
    if has_at(s, 0, '.') {
        done(NodeView::AnyCharacter, s.skip(1), groups)
    } else if can_parse_character_class_spec(s) {
        parse_character_class_spec(s, groups)
    } else if has_at(s, 0, '[') {
        parse_character_group_spec(s, groups)
    } else {
        parse_character_spec(s, groups)
    }
}

/// The range quantifier with its bounds checked: an upper bound below the
/// lower one is an error.
pub open spec fn validate_range_quantifier_spec(lower: u64, upper: UpperBound, lazy: bool) -> Result<
    Quantifier,
    ParserErrorView,
> {
    match upper {
        UpperBound::Bounded(upper_digit) => if upper_digit < lower {
            Err(ParserErrorView::InvalidRangeQuantifier(lower, upper_digit))
        } else {
            Ok(Quantifier::Range(lower, upper, lazy))
        },
        _ => Ok(Quantifier::Range(lower, upper, lazy)),
    }
}

pub open spec fn is_digit(c: char) -> bool {
    '0' <= c && c <= '9'
}

/// The number of decimal digits that the text starts with.
pub open spec fn digit_prefix_len(s: Seq<char>) -> nat
    decreases s.len(),
{
    if s.len() > 0 && is_digit(s[0]) {
        1 + digit_prefix_len(s.skip(1))
    } else {
        0
    }
}

pub open spec fn all_digits(s: Seq<char>) -> bool {
    forall|i: int| 0 <= i < s.len() ==> is_digit(#[trigger] s[i])
}

/// The number that a text of decimal digits writes.
pub open spec fn decimal_value(s: Seq<char>) -> nat
    decreases s.len(),
{
    if s.len() == 0 {
        0
    } else {
        (decimal_value(s.drop_last()) * 10 + (s.last() as int - '0' as int)) as nat
    }
}

/// What std's conversion of a text to a `u64` returns. Of a text of digits
/// that writes a number within `u64`, it is that number; of any other text
/// of digits it is an error, which is known only by this name.
pub uninterp spec fn parsed_u64(s: Seq<char>) -> Result<u64, ParseIntError>;

/// A run of decimal digits, read as a `u64`: the number that the digits
/// write, or an error if there is no digit or the number is too large. The
/// digits are read even when they do not make such a number.
pub open spec fn parse_int_spec(s: Seq<char>, groups: nat) -> Parsed<u64> {
    let count = digit_prefix_len(s);
    let digits = s.take(count as int);
    let rest = s.skip(count as int);
    if count > 0 && decimal_value(digits) <= u64::MAX {
        done(decimal_value(digits) as u64, rest, groups)
    } else {
        match parsed_u64(digits) {
            Err(cause) => failed(ParserErrorView::CantParseRangeBound(cause), rest, groups),
            // The conversion gives an error in this case.
            Ok(number) => done(number, rest, groups),
        }
    }
}

/// The part of a range quantifier after the lower bound: the optional comma
/// and upper bound, the closing brace, the optional `?`.
pub open spec fn parse_range_tail_spec(s: Seq<char>, groups: nat, lower: u64) -> Parsed<
    Quantifier,
> {
    let comma = consume_spec(s, groups, ',');
    let bound: Parsed<UpperBound> = match comma.result {
        Err(_) => done(UpperBound::Undefined, comma.rest, groups),
        Ok(_) => if comma.rest.len() > 0 && is_digit(comma.rest[0]) {
            let number = parse_int_spec(comma.rest, groups);
            match number.result {
                Err(e) => failed(e, number.rest, groups),
                Ok(n) => done(UpperBound::Bounded(n), number.rest, groups),
            }
        } else {
            done(UpperBound::Unbounded, comma.rest, groups)
        },
    };
    match bound.result {
        Err(e) => failed(e, bound.rest, groups),
        Ok(upper) => {
            let close = consume_spec(bound.rest, groups, '}');
            match close.result {
                Err(e) => failed(e, close.rest, groups),
                Ok(_) => {
                    let lazy = has_at(close.rest, 0, '?');
                    let rest = if lazy {
                        close.rest.skip(1)
                    } else {
                        close.rest
                    };
                    match validate_range_quantifier_spec(lower, upper, lazy) {
                        Ok(q) => done(q, rest, groups),
                        Err(e) => failed(e, rest, groups),
                    }
                },
            }
        },
    }
}

/// A range quantifier: `{n}`, `{n,}`, `{n,m}`, `{,m}`, each optionally
/// followed by `?`.
pub open spec fn parse_range_quantifier_spec(s: Seq<char>, groups: nat) -> Parsed<Quantifier> {
    let open = consume_spec(s, groups, '{');
    match open.result {
        Err(e) => failed(e, open.rest, groups),
        Ok(_) => if has_at(open.rest, 0, ',') {
            parse_range_tail_spec(open.rest, groups, 0)
        } else {
            let number = parse_int_spec(open.rest, groups);
            match number.result {
                Err(e) => failed(e, number.rest, groups),
                Ok(lower) => parse_range_tail_spec(number.rest, groups, lower),
            }
        },
    }
}

/// A quantifier: `*`, `+`, `?` or a range, each optionally followed by `?`.
pub open spec fn parse_quantifier_spec(s: Seq<char>, groups: nat) -> Parsed<Quantifier> {
    if has_at(s, 0, '{') {
        parse_range_quantifier_spec(s, groups)
    } else {
        let sign = consume_unseen_spec(s, groups);
        match sign.result {
            Err(e) => failed(e, sign.rest, groups),
            Ok(c) => if c == '*' || c == '+' || c == '?' {
                let lazy = has_at(sign.rest, 0, '?');
                let rest = if lazy {
                    sign.rest.skip(1)
                } else {
                    sign.rest
                };
                if c == '*' {
                    done(Quantifier::ZeroOrMore(lazy), rest, groups)
                } else if c == '+' {
                    done(Quantifier::OneOrMore(lazy), rest, groups)
                } else {
                    done(Quantifier::ZeroOrOne(lazy), rest, groups)
                }
            } else {
                failed(ParserErrorView::UnrecognizedQuantifier(c), sign.rest, groups)
            },
        }
    }
}

/// The quantifier that follows an item, or none.
pub open spec fn parse_optional_quantifier_spec(s: Seq<char>, groups: nat) -> Parsed<Quantifier> {
    if can_parse_quantifier_spec(s) {
        parse_quantifier_spec(s, groups)
    } else {
        done(Quantifier::Absent, s, groups)
    }
}

/// An anchor: `^`, `$`, or a backslash and one of `a b B z Z`.
pub open spec fn parse_anchor_spec(s: Seq<char>, groups: nat) -> Parsed<NodeView> {
    let slash = consume_spec(s, groups, '\\');
    match slash.result {
        Ok(_) => {
            let letter = consume_unseen_spec(slash.rest, groups);
            match letter.result {
                Err(e) => failed(e, letter.rest, groups),
                Ok(c) => if c == 'a' {
                    done(NodeView::StartOfStringOnly, letter.rest, groups)
                } else if c == 'b' {
                    done(NodeView::WordBoundary, letter.rest, groups)
                } else if c == 'B' {
                    done(NodeView::NonWordBoundary, letter.rest, groups)
                } else if c == 'z' {
                    done(NodeView::EndOfStringOnlyNotNewline, letter.rest, groups)
                } else if c == 'Z' {
                    done(NodeView::EndOfStringOnlyMaybeNewLine, letter.rest, groups)
                } else {
                    failed(ParserErrorView::UnrecognizedAnchor(letter.rest, c), letter.rest, groups)
                },
            }
        },
        Err(e) => if has_at(s, 0, '^') {
            done(NodeView::StartOfString, s.skip(1), groups)
        } else if has_at(s, 0, '$') {
            done(NodeView::EndOfString, s.skip(1), groups)
        } else {
            failed(e, s, groups)
        },
    }
}

/// A match item and the quantifier that may follow it.
pub open spec fn parse_match_spec(s: Seq<char>, groups: nat) -> Parsed<NodeView> {
    let item = parse_match_item_spec(s, groups);
    match item.result {
        Err(e) => failed(e, item.rest, groups),
        Ok(node) => {
            let quantifier = parse_optional_quantifier_spec(item.rest, groups);
            match quantifier.result {
                Err(e) => failed(e, quantifier.rest, groups),
                Ok(q) => done(NodeView::Match(Box::new(node), q), quantifier.rest, groups),
            }
        },
    }
}

/// An expression: one or more items, then optionally `|` and another
/// expression. A `|` with nothing to parse after it turns the whole into the
/// empty-string node. The test on the lengths is always met, as
/// [`lemma_items_progress`] shows.
pub open spec fn parse_expression_spec(s: Seq<char>, groups: nat) -> Parsed<NodeView>
    decreases s.len(), 3nat,
{
    let items = parse_items_spec(s, groups, Seq::empty());
    match items.result {
        Err(e) => failed(e, items.rest, items.groups),
        Ok(found) => if found.len() == 0 {
            failed(ParserErrorView::InvalidExpression(items.rest), items.rest, items.groups)
        } else if has_at(items.rest, 0, '|') {
            let after = items.rest.skip(1);
            if can_parse_sub_expression_item_spec(after) {
                if after.len() < s.len() {
                    let other = parse_expression_spec(after, items.groups);
                    match other.result {
                        Err(e) => failed(e, other.rest, other.groups),
                        Ok(node) => done(
                            NodeView::Expression(found, Some(Box::new(node))),
                            other.rest,
                            other.groups,
                        ),
                    }
                } else {
                    // The items and the bar have taken at least two characters.
                    failed(ParserErrorView::UnexexpectedEOF, after, items.groups)
                }
            } else {
                done(NodeView::EmptyString, after, items.groups)
            }
        } else {
            done(NodeView::Expression(found, None), items.rest, items.groups)
        },
    }
}

/// The items of an expression, up to the place where no item can start.
/// `found` holds the items read before `s`. The test on the lengths is
/// always met, as [`lemma_sub_expression_item_progress`] shows.
pub open spec fn parse_items_spec(s: Seq<char>, groups: nat, found: Seq<NodeView>) -> Parsed<
    Seq<NodeView>,
>
    decreases s.len(), 2nat,
{
    if can_parse_sub_expression_item_spec(s) {
        let item = parse_sub_expression_item_spec(s, groups);
        match item.result {
            Err(e) => failed(e, item.rest, item.groups),
            Ok(node) => if item.rest.len() < s.len() {
                parse_items_spec(item.rest, item.groups, found.push(node))
            } else {
                // An item always takes at least one character.
                done(found, s, groups)
            },
        }
    } else {
        done(found, s, groups)
    }
}

/// One item of an expression: a group, an anchor, or a match.
pub open spec fn parse_sub_expression_item_spec(s: Seq<char>, groups: nat) -> Parsed<NodeView>
    decreases s.len(), 1nat,
{
    if has_at(s, 0, '(') {
        parse_group_spec(s, groups)
    } else if can_parse_anchor_spec(s) {
        parse_anchor_spec(s, groups)
    } else {
        parse_match_spec(s, groups)
    }
}

/// A group: `(`, an optional `?:` that makes it non-capturing, an
/// expression, `)`, and the quantifier that may follow. A capturing group
/// takes the next free number.
pub open spec fn parse_group_spec(s: Seq<char>, groups: nat) -> Parsed<NodeView>
    decreases s.len(), 0nat,
{
    let open = consume_spec(s, groups, '(');
    match open.result {
        Err(e) => failed(e, open.rest, groups),
        Ok(_) => {
            let plain = agrees_with(open.rest, seq!['?', ':']);
            let index = if plain {
                None
            } else {
                Some(groups as usize)
            };
            let inner_groups = if plain {
                groups
            } else {
                groups + 1
            };
            let body = if plain {
                advance_spec(open.rest, 2)
            } else {
                open.rest
            };
            let inner = if has_at(body, 0, '?') {
                done(NodeView::EmptyString, body, inner_groups)
            } else {
                parse_expression_spec(body, inner_groups)
            };
            match inner.result {
                Err(e) => failed(e, inner.rest, inner.groups),
                Ok(expression) => {
                    let close = consume_spec(inner.rest, inner.groups, ')');
                    match close.result {
                        Err(e) => failed(e, close.rest, inner.groups),
                        Ok(_) => {
                            let quantifier = parse_optional_quantifier_spec(
                                close.rest,
                                inner.groups,
                            );
                            match quantifier.result {
                                Err(e) => failed(e, quantifier.rest, inner.groups),
                                Ok(q) => done(
                                    NodeView::Group(Box::new(expression), index, q),
                                    quantifier.rest,
                                    inner.groups,
                                ),
                            }
                        },
                    }
                },
            }
        },
    }
}

/// Whether the character is one of the inline modifiers `i m s x`.
pub open spec fn is_modifier(c: char) -> bool {
    c == 'i' || c == 'm' || c == 's' || c == 'x'
}

/// The option that an inline modifier switches on.
pub open spec fn modifier_flag(c: char) -> RegexFlags {
    if c == 'i' {
        RegexFlags::spec_ignore_case()
    } else if c == 's' {
        RegexFlags::spec_dot_all()
    } else if c == 'm' {
        RegexFlags::spec_multiline()
    } else if c == 'x' {
        RegexFlags::spec_free_spacing()
    } else {
        RegexFlags::spec_no_flag()
    }
}

/// The number of modifier letters that the text starts with.
pub open spec fn modifier_prefix_len(s: Seq<char>) -> nat
    decreases s.len(),
{
    if s.len() > 0 && is_modifier(s[0]) {
        1 + modifier_prefix_len(s.skip(1))
    } else {
        0
    }
}

/// Whether a modifier block starts here: `(` and `?`, both present.
pub open spec fn at_modifier_block(s: Seq<char>) -> bool {
    s.len() >= 2 && s[0] == '(' && s[1] == '?'
}

/// Reads modifier blocks as long as one starts: `(?` and the modifier
/// letters after it. Gives the text left and all the letters read, those in
/// `found` first.
pub open spec fn scan_modifier_blocks(s: Seq<char>, found: Seq<char>) -> (Seq<char>, Seq<char>)
    decreases s.len(),
{
    if at_modifier_block(s) {
        let count = modifier_prefix_len(s.skip(2));
        if count + 2 <= s.len() {
            scan_modifier_blocks(s.skip(2 + count as int), found + s.subrange(2, 2 + count as int))
        } else {
            // The letters counted are part of the text: `lemma_modifier_prefix_len`.
            (s, found)
        }
    } else {
        (s, found)
    }
}

/// The options after switching on those of every letter in `found`.
pub open spec fn apply_modifiers(flags: RegexFlags, found: Seq<char>) -> RegexFlags
    decreases found.len(),
{
    if found.len() == 0 {
        flags
    } else {
        apply_modifiers(flags, found.drop_last()).spec_union(modifier_flag(found.last()))
    }
}

/// What the inline modifiers at the head of a pattern yield.
pub struct Prelude {
    pub result: Result<bool, ParserErrorView>,
    pub rest: Seq<char>,
    pub flags: RegexFlags,
}

/// What reading the modifier blocks yields: the text left and the letters
/// of the blocks that were closed.
pub struct ModifierScan {
    pub result: Result<bool, ParserErrorView>,
    pub rest: Seq<char>,
    pub letters: Seq<char>,
}

/// The modifier blocks from the one that starts at `s` on: blocks of the
/// form `(?` letters `)`, one after the other. `closed` holds the letters of
/// the blocks closed before `s`. A block with letters and no `)` is an
/// error. A block with no letter and no `)` is no modifier block: the blocks
/// end before it, and nothing of it is read.
///
/// The test on the lengths is always met: a block takes at least its `)`.
pub open spec fn modifier_rounds(s: Seq<char>, closed: Seq<char>) -> ModifierScan
    decreases s.len(),
{
    let (rest, found) = scan_modifier_blocks(s, Seq::empty());
    let close = consume_spec(rest, 0, ')');
    match close.result {
        Ok(_) => if at_modifier_block(close.rest) && close.rest.len() < s.len() {
            modifier_rounds(close.rest, closed + found)
        } else {
            ModifierScan { result: Ok(true), rest: close.rest, letters: closed + found }
        },
        Err(e) => if found.len() == 0 {
            ModifierScan { result: Ok(true), rest: s, letters: closed }
        } else {
            ModifierScan { result: Err(e), rest, letters: closed }
        },
    }
}

/// The inline modifiers at the head of a pattern. Where no block starts,
/// nothing is read and the options stay as they are. Otherwise the blocks
/// are read as [`modifier_rounds`] says, and the options of the letters of
/// all closed blocks are switched on, once the last block has closed. In
/// case of an error the options stay as they are.
pub open spec fn parse_inline_modifiers_spec(s: Seq<char>, flags: RegexFlags) -> Prelude {
    if !at_modifier_block(s) {
        Prelude { result: Ok(true), rest: s, flags }
    } else {
        let scan = modifier_rounds(s, Seq::empty());
        Prelude {
            result: scan.result,
            rest: scan.rest,
            flags: if scan.result is Ok {
                apply_modifiers(flags, scan.letters)
            } else {
                flags
            },
        }
    }
}

/// Switching modifiers on clears no option and touches none but the four
/// that modifiers stand for.
pub proof fn lemma_apply_modifiers_bits(flags: RegexFlags, found: Seq<char>)
    ensures
        apply_modifiers(flags, found).bits & flags.bits == flags.bits,
        apply_modifiers(flags, found).bits | 15 == flags.bits | 15,
    decreases found.len(),
{
    let x = flags.bits;
    if found.len() == 0 {
        assert(x & x == x) by (bit_vector);
    } else {
        lemma_apply_modifiers_bits(flags, found.drop_last());
        let y = apply_modifiers(flags, found.drop_last()).bits;
        let m = modifier_flag(found.last()).bits;
        assert(m == 0 || m == 1 || m == 2 || m == 4 || m == 8);
        assert((y & x == x && (y | 15) == (x | 15) && (m == 0 || m == 1 || m == 2 || m == 4 || m
            == 8)) ==> ((y | m) & x == x && ((y | m) | 15) == (x | 15))) by (bit_vector);
    }
}

pub open spec fn is_blank(c: char) -> bool {
    c == ' ' || c == '\t' || c == '\n' || c == '\r'
}

/// The number of characters before the first newline, or the whole length.
pub open spec fn line_len(s: Seq<char>) -> nat
    decreases s.len(),
{
    if s.len() > 0 && s[0] != '\n' {
        1 + line_len(s.skip(1))
    } else {
        0
    }
}

/// The pattern as the free-spacing option reads it: without blanks and
/// without comments, which run from `#` to the end of the line. A backslash
/// keeps the character after it, whatever it is.
pub open spec fn strip_free_spacing(s: Seq<char>) -> Seq<char>
    decreases s.len(),
{
    if s.len() == 0 {
        s
    } else if s[0] == '\\' && s.len() > 1 {
        seq![s[0], s[1]] + strip_free_spacing(s.skip(2))
    } else if is_blank(s[0]) {
        strip_free_spacing(s.skip(1))
    } else if s[0] == '#' {
        if line_len(s) <= s.len() {
            strip_free_spacing(s.skip(if line_len(s) >= 1 { line_len(s) as int } else { 1 }))
        } else {
            // A line is never longer than the text it starts: `lemma_line_len`.
            s
        }
    } else {
        seq![s[0]] + strip_free_spacing(s.skip(1))
    }
}

/// The leading `^` goes in front of the items of the expression after it.
pub open spec fn splice_start_anchor(expression: NodeView) -> NodeView {
    match expression {
        NodeView::Expression(items, alternative) => NodeView::Expression(
            items.insert(0, NodeView::StartOfString),
            alternative,
        ),
        other => NodeView::Expression(seq![NodeView::StartOfString, other], None),
    }
}

/// What parsing a whole pattern yields: the tree or the error, and the
/// options after the inline modifiers.
pub struct ParseOutcome {
    pub result: Result<NodeView, ParserErrorView>,
    pub flags: RegexFlags,
}

/// The expression that is the whole pattern after the modifiers, with
/// nothing left behind it.
pub open spec fn parse_whole_spec(s: Seq<char>) -> Result<NodeView, ParserErrorView> {
    if has_at(s, 0, '^') {
        let body = s.skip(1);
        if body.len() > 0 {
            let expression = parse_expression_spec(body, 0);
            match expression.result {
                Err(e) => Err(e),
                Ok(node) => if expression.rest.len() > 0 {
                    Err(ParserErrorView::SuffixRemaining(expression.rest))
                } else {
                    Ok(splice_start_anchor(node))
                },
            }
        } else {
            Ok(NodeView::StartOfString)
        }
    } else {
        let expression = parse_expression_spec(s, 0);
        match expression.result {
            Err(e) => Err(e),
            Ok(node) => if expression.rest.len() > 0 {
                Err(ParserErrorView::SuffixRemaining(expression.rest))
            } else {
                Ok(node)
            },
        }
    }
}

/// The tree of a whole pattern. The empty pattern is the empty-string node.
/// Inline modifiers come first and are added to `flags`, unless they are in
/// error; with the free-spacing option on, blanks and comments are dropped
/// from the rest before it is parsed.
pub open spec fn run_parse_spec(input: Seq<char>, flags: RegexFlags) -> ParseOutcome {
    if input.len() == 0 {
        ParseOutcome { result: Ok(NodeView::EmptyString), flags }
    } else {
        let prelude = parse_inline_modifiers_spec(input, flags);
        match prelude.result {
            Err(e) => ParseOutcome { result: Err(e), flags: prelude.flags },
            Ok(_) => {
                let body = if prelude.flags.spec_contains(RegexFlags::spec_free_spacing()) {
                    strip_free_spacing(prelude.rest)
                } else {
                    prelude.rest
                };
                ParseOutcome { result: parse_whole_spec(body), flags: prelude.flags }
            },
        }
    }
}

/// What a parsing step may do to the state: it reads forward only, it opens
/// no more groups than it reads characters, and where it succeeds it has
/// read two characters for each group it opened.
pub open spec fn advances(
    before: Seq<char>,
    before_groups: nat,
    after: Seq<char>,
    after_groups: nat,
    succeeded: bool,
) -> bool {
    &&& after.len() <= before.len()
    &&& before_groups <= after_groups
    &&& after_groups - before_groups <= before.len() - after.len()
    &&& succeeded ==> 2 * (after_groups - before_groups) <= before.len() - after.len()
}

/// The digits that a text starts with are part of the text.
pub proof fn lemma_digit_prefix_len(s: Seq<char>)
    ensures
        digit_prefix_len(s) <= s.len(),
    decreases s.len(),
{
    if s.len() > 0 && is_digit(s[0]) {
        lemma_digit_prefix_len(s.skip(1));
    }
}

/// The modifier letters that a text starts with are part of the text.
pub proof fn lemma_modifier_prefix_len(s: Seq<char>)
    ensures
        modifier_prefix_len(s) <= s.len(),
    decreases s.len(),
{
    if s.len() > 0 && is_modifier(s[0]) {
        lemma_modifier_prefix_len(s.skip(1));
    }
}

/// A line is part of the text that it starts.
pub proof fn lemma_line_len(s: Seq<char>)
    ensures
        line_len(s) <= s.len(),
    decreases s.len(),
{
    if s.len() > 0 && s[0] != '\n' {
        lemma_line_len(s.skip(1));
    }
}

/// Reading modifier blocks leaves no more text than there was: the test on
/// the lengths in [`scan_modifier_blocks`] is always met.
pub proof fn lemma_scan_modifier_blocks_progress(s: Seq<char>, found: Seq<char>)
    ensures
        scan_modifier_blocks(s, found).0.len() <= s.len(),
    decreases s.len(),
{
    if at_modifier_block(s) {
        lemma_modifier_prefix_len(s.skip(2));
        let count = modifier_prefix_len(s.skip(2));
        lemma_scan_modifier_blocks_progress(
            s.skip(2 + count as int),
            found + s.subrange(2, 2 + count as int),
        );
    }
}

/// Dropping blanks and comments makes a pattern no longer: the test on the
/// lengths in [`strip_free_spacing`] is always met.
pub proof fn lemma_strip_free_spacing_len(s: Seq<char>)
    ensures
        strip_free_spacing(s).len() <= s.len(),
    decreases s.len(),
{
    if s.len() == 0 {
    } else if s[0] == '\\' && s.len() > 1 {
        lemma_strip_free_spacing_len(s.skip(2));
    } else if is_blank(s[0]) {
        lemma_strip_free_spacing_len(s.skip(1));
    } else if s[0] == '#' {
        lemma_line_len(s);
        lemma_strip_free_spacing_len(
            s.skip(
                if line_len(s) >= 1 {
                    line_len(s) as int
                } else {
                    1
                },
            ),
        );
    } else {
        lemma_strip_free_spacing_len(s.skip(1));
    }
}

/// Reading a number leaves no more text than there was.
pub proof fn lemma_int_progress(s: Seq<char>, groups: nat)
    ensures
        parse_int_spec(s, groups).rest.len() <= s.len(),
{
    lemma_digit_prefix_len(s);
}

/// Reading a quantifier leaves no more text than there was.
pub proof fn lemma_quantifier_progress(s: Seq<char>, groups: nat)
    ensures
        parse_optional_quantifier_spec(s, groups).rest.len() <= s.len(),
        parse_optional_quantifier_spec(s, groups).groups == groups,
{
    if s.len() > 0 {
        let body = s.skip(1);
        lemma_int_progress(body, groups);
        let tail = if has_at(body, 0, ',') {
            body
        } else {
            parse_int_spec(body, groups).rest
        };
        if tail.len() > 0 {
            lemma_int_progress(tail.skip(1), groups);
        }
    }
}

/// The members of a character group leave no more text than there was, and
/// less if a member was read.
pub proof fn lemma_character_group_items_progress(
    s: Seq<char>,
    groups: nat,
    found: Seq<NodeView>,
)
    ensures
        parse_character_group_items_spec(s, groups, found).rest.len() <= s.len(),
        parse_character_group_items_spec(s, groups, found).result matches Ok(members)
            ==> members.len() >= found.len(),
    decreases s.len(),
{
    let item = parse_character_group_item_spec(s, groups);
    match item.result {
        Ok(node) => {
            if item.rest.len() < s.len() {
                lemma_character_group_items_progress(item.rest, groups, found.push(node));
            }
        },
        _ => {},
    }
}

/// A match item, with its quantifier, takes at least one character.
pub proof fn lemma_match_progress(s: Seq<char>, groups: nat)
    ensures
        parse_match_spec(s, groups).rest.len() <= s.len(),
        parse_match_spec(s, groups).result is Ok ==> parse_match_spec(s, groups).rest.len()
            < s.len(),
        parse_match_spec(s, groups).groups == groups,
{
    if s.len() > 0 {
        let open = s.skip(1);
        let body = if has_at(open, 0, '^') {
            open.skip(1)
        } else {
            open
        };
        lemma_character_group_items_progress(body, groups, Seq::empty());
    }
    let item = parse_match_item_spec(s, groups);
    lemma_quantifier_progress(item.rest, groups);
}

/// An anchor takes at least one character.
pub proof fn lemma_anchor_progress(s: Seq<char>, groups: nat)
    ensures
        parse_anchor_spec(s, groups).rest.len() <= s.len(),
        parse_anchor_spec(s, groups).result is Ok ==> parse_anchor_spec(s, groups).rest.len()
            < s.len(),
        parse_anchor_spec(s, groups).groups == groups,
{
}

/// An expression takes at least one character and opens no more groups than
/// it takes characters.
pub proof fn lemma_expression_progress(s: Seq<char>, groups: nat)
    ensures
        parse_expression_spec(s, groups).rest.len() <= s.len(),
        parse_expression_spec(s, groups).result is Ok ==> parse_expression_spec(
            s,
            groups,
        ).rest.len() < s.len(),
    decreases s.len(), 3nat,
{
    lemma_items_progress(s, groups, Seq::empty());
    let items = parse_items_spec(s, groups, Seq::empty());
    if items.result is Ok && items.result->Ok_0.len() > 0 && has_at(items.rest, 0, '|') {
        let after = items.rest.skip(1);
        if can_parse_sub_expression_item_spec(after) {
            lemma_expression_progress(after, items.groups);
        }
    }
}

/// The items of an expression leave no more text than there was, and less
/// if an item was read: the test on the lengths in [`parse_items_spec`] is
/// always met.
pub proof fn lemma_items_progress(s: Seq<char>, groups: nat, found: Seq<NodeView>)
    ensures
        parse_items_spec(s, groups, found).rest.len() <= s.len(),
        parse_items_spec(s, groups, found).result matches Ok(items) ==> items.len() >= found.len()
            && (items.len() > found.len() ==> parse_items_spec(s, groups, found).rest.len()
            < s.len()),
    decreases s.len(), 2nat,
{
    if can_parse_sub_expression_item_spec(s) {
        lemma_sub_expression_item_progress(s, groups);
        let item = parse_sub_expression_item_spec(s, groups);
        match item.result {
            Ok(node) => {
                lemma_items_progress(item.rest, item.groups, found.push(node));
            },
            Err(_) => {},
        }
    }
}

/// An item of an expression takes at least one character.
pub proof fn lemma_sub_expression_item_progress(s: Seq<char>, groups: nat)
    ensures
        parse_sub_expression_item_spec(s, groups).rest.len() <= s.len(),
        parse_sub_expression_item_spec(s, groups).result is Ok ==> parse_sub_expression_item_spec(
            s,
            groups,
        ).rest.len() < s.len(),
    decreases s.len(), 1nat,
{
    if has_at(s, 0, '(') {
        lemma_group_progress(s, groups);
    } else if can_parse_anchor_spec(s) {
        lemma_anchor_progress(s, groups);
    } else {
        lemma_match_progress(s, groups);
    }
}

/// A group takes at least one character.
pub proof fn lemma_group_progress(s: Seq<char>, groups: nat)
    ensures
        parse_group_spec(s, groups).rest.len() <= s.len(),
        parse_group_spec(s, groups).result is Ok ==> parse_group_spec(s, groups).rest.len()
            < s.len(),
    decreases s.len(), 0nat,
{
    if has_at(s, 0, '(') {
        let open = s.skip(1);
        let plain = agrees_with(open, seq!['?', ':']);
        let inner_groups = if plain {
            groups
        } else {
            groups + 1
        };
        let body = if plain {
            advance_spec(open, 2)
        } else {
            open
        };
        if !has_at(body, 0, '?') {
            lemma_expression_progress(body, inner_groups);
        }
        let inner = if has_at(body, 0, '?') {
            done(NodeView::EmptyString, body, inner_groups)
        } else {
            parse_expression_spec(body, inner_groups)
        };
        if inner.result is Ok && has_at(inner.rest, 0, ')') {
            lemma_quantifier_progress(inner.rest.skip(1), inner.groups);
        }
    }
}

} // verus!
