//! The recursive-descent parser: from the text of a pattern to its syntax
//! tree. Each function is proved to compute what the function of the same
//! name in [`crate::grammar`] defines.

use vstd::prelude::*;
use itertools::Itertools;
use std::num::ParseIntError;
use crate::grammar::{
    advances, all_digits, apply_modifiers, at_modifier_block, decimal_value, digit_class,
    digit_prefix_len, done, is_blank, is_digit, is_modifier, line_len, modifier_flag,
    modifier_prefix_len, parse_anchor_spec, parse_character_class_spec,
    parse_character_group_item_spec, parse_character_group_items_spec,
    parse_character_group_spec, parse_character_in_character_group_spec,
    parse_character_range_spec, parse_character_spec, parse_escaped_spec,
    lemma_apply_modifiers_bits, modifier_rounds, parse_expression_spec, parse_group_spec,
    parse_inline_modifiers_spec, parse_int_spec,
    parse_items_spec, parse_match_item_spec, parse_match_spec,
    parse_optional_quantifier_spec, parse_quantifier_spec, parse_range_quantifier_spec,
    parse_sub_expression_item_spec, parse_whole_spec, parsed_u64,
    run_parse_spec, scan_modifier_blocks, space_class, splice_start_anchor,
    strip_free_spacing, validate_range_quantifier_spec, word_class, ParseOutcome, Parsed,
    Prelude,
};
use crate::node::{
    lemma_trees_wf_all, lemma_trees_wf_insert, lemma_trees_wf_push, tree_wf, trees_wf,
    group_span, group_span_all, lemma_group_span_all_insert, lemma_group_span_all_push,
    lemma_node_views, lemma_node_views_insert, lemma_node_views_push, node_views, Node,
    NodeView, ParserError, ParserErrorView, Quantifier, UpperBound,
};
use crate::stream::{has_at, Parser};
use crate::utils::RegexFlags;

verus! {

/// std's `Iterator::collect` on the characters of a list: the text that
/// holds them, in order.
#[verifier::external_body]
fn text_of_chars(chars: &Vec<char>) -> (text: String)
    ensures
        text@ == chars@,
{
    chars.iter().collect::<String>()
}

/// std's `str::parse::<u64>`. It returns the value named [`parsed_u64`]. Of
/// a text made of decimal digits alone, std documents that the result is the
/// number written, and an error when the text is empty or the number does
/// not fit.
#[verifier::external_body]
fn text_to_u64(text: &str) -> (number: Result<u64, ParseIntError>)
    ensures
        number == parsed_u64(text@),
        number is Ok && all_digits(text@) ==> 0 < text@.len() && decimal_value(text@) <= u64::MAX,
        number is Err && all_digits(text@) ==> text@.len() == 0 || decimal_value(text@) > u64::MAX,
        number matches Ok(value) ==> all_digits(text@) ==> value == decimal_value(text@),
{
    text.parse::<u64>()
}

/// The node of one literal character, boxed.
pub fn boxed_literal(literal: &char) -> (node: Box<Node>)
    ensures
        node@ == NodeView::Character(*literal),
{
    Box::new(Node::Character(*literal))
}

/// `Itertools::collect_vec` on the characters of a list, each turned into
/// its literal node: one node for each character, in order.
#[verifier::external_body]
fn literal_nodes(chars: &Vec<char>) -> (nodes: Vec<Box<Node>>)
    ensures
        nodes@.len() == chars@.len(),
        forall|i: int| 0 <= i < chars@.len() ==> (#[trigger] nodes@[i])@ == NodeView::Character(chars@[i]),
{
    chars.iter().map(boxed_literal).collect_vec()
}

/// The result of a step that yields a node, with the state it left, as the
/// grammar speaks of it.
pub open spec fn node_parsed(r: Result<Node, ParserError>, rest: Seq<char>, groups: nat) -> Parsed<
    NodeView,
> {
    Parsed {
        result: match r {
            Ok(node) => Ok(node@),
            Err(e) => Err(e@),
        },
        rest,
        groups,
    }
}

/// The result of a step that yields a plain value, with the state it left.
pub open spec fn plain_parsed<T>(r: Result<T, ParserError>, rest: Seq<char>, groups: nat) -> Parsed<
    T,
> {
    Parsed {
        result: match r {
            Ok(value) => Ok(value),
            Err(e) => Err(e@),
        },
        rest,
        groups,
    }
}

fn word_class_node(negated: bool) -> (node: Node)
    ensures
        node@ == word_class(negated),
        tree_wf(node@),
{
    let members = vec![
        Box::new(Node::CharacterRange('0', '9')),
        Box::new(Node::CharacterRange('A', 'z')),
        Box::new(Node::CharacterRange('a', 'z')),
        Box::new(Node::Character('-')),
    ];
    proof {
        lemma_node_views(members@);
        assert(node_views(members@) =~= seq![
            NodeView::CharacterRange('0', '9'),
            NodeView::CharacterRange('A', 'z'),
            NodeView::CharacterRange('a', 'z'),
            NodeView::Character('-'),
        ]);
        lemma_trees_wf_all(node_views(members@));
    }
    Node::class(members, negated)
}

fn digit_class_node(negated: bool) -> (node: Node)
    ensures
        node@ == digit_class(negated),
        tree_wf(node@),
{
    let members = vec![Box::new(Node::CharacterRange('0', '9'))];
    proof {
        lemma_node_views(members@);
        assert(node_views(members@) =~= seq![NodeView::CharacterRange('0', '9')]);
        lemma_trees_wf_all(node_views(members@));
    }
    Node::class(members, negated)
}

fn space_class_node(negated: bool) -> (node: Node)
    ensures
        node@ == space_class(negated),
        tree_wf(node@),
{
    let blanks = vec![' ', '\t', '\n'];
    let members = literal_nodes(&blanks);
    proof {
        lemma_node_views(members@);
        assert(node_views(members@) =~= seq![
            NodeView::Character(' '),
            NodeView::Character('\t'),
            NodeView::Character('\n'),
        ]);
        lemma_trees_wf_all(node_views(members@));
    }
    Node::class(members, negated)
}

pub fn parse_character_class(parser: &mut Parser) -> (r: Result<Node, ParserError>)
    ensures
        node_parsed(r, final(parser).unread(), final(parser).groups())
            == parse_character_class_spec(old(parser).unread(), old(parser).groups()),
        advances(
            old(parser).unread(),
            old(parser).groups(),
            final(parser).unread(),
            final(parser).groups(),
            r is Ok,
        ),
        final(parser).groups() == old(parser).groups(),
        r is Ok ==> final(parser).unread().len() < old(parser).unread().len(),
        r matches Ok(node) ==> group_span(node@) == 0,
        r matches Ok(node) ==> tree_wf(node@),
{
    parser.consume('\\')?;
    let letter = parser.consume_unseen()?;
    match letter {
        'w' => Ok(word_class_node(false)),
        'W' => Ok(word_class_node(true)),
        'd' => Ok(digit_class_node(false)),
        'D' => Ok(digit_class_node(true)),
        's' => Ok(space_class_node(false)),
        'S' => Ok(space_class_node(true)),
        char_literal => Err(ParserError::UnrecognizedAnchor(parser.get_remainder(), char_literal)),
    }
}

pub fn parse_character_range(parser: &mut Parser) -> (r: Result<Node, ParserError>)
    ensures
        node_parsed(r, final(parser).unread(), final(parser).groups())
            == parse_character_range_spec(old(parser).unread(), old(parser).groups()),
        advances(
            old(parser).unread(),
            old(parser).groups(),
            final(parser).unread(),
            final(parser).groups(),
            r is Ok,
        ),
        final(parser).groups() == old(parser).groups(),
        r is Ok ==> final(parser).unread().len() < old(parser).unread().len(),
        r matches Ok(node) ==> group_span(node@) == 0,
        r matches Ok(node) ==> tree_wf(node@),
{
    let start = parser.consume_unseen()?;
    parser.consume('-')?;
    let end = parser.consume_unseen()?;
    if start > end {
        Err(ParserError::InvalidCharacterRange(start, end))
    } else {
        Ok(Node::range(start, end))
    }
}

pub fn parse_escaped(parser: &mut Parser) -> (r: Result<Node, ParserError>)
    ensures
        node_parsed(r, final(parser).unread(), final(parser).groups()) == parse_escaped_spec(
            old(parser).unread(),
            old(parser).groups(),
        ),
        advances(
            old(parser).unread(),
            old(parser).groups(),
            final(parser).unread(),
            final(parser).groups(),
            r is Ok,
        ),
        final(parser).groups() == old(parser).groups(),
        r is Ok ==> final(parser).unread().len() < old(parser).unread().len(),
        r matches Ok(node) ==> group_span(node@) == 0,
        r matches Ok(node) ==> tree_wf(node@),
{
    parser.consume('\\')?;
    let literal = parser.consume_unseen()?;
    Ok(Node::literal(literal))
}

pub fn parse_character(parser: &mut Parser) -> (r: Result<Node, ParserError>)
    ensures
        node_parsed(r, final(parser).unread(), final(parser).groups()) == parse_character_spec(
            old(parser).unread(),
            old(parser).groups(),
        ),
        advances(
            old(parser).unread(),
            old(parser).groups(),
            final(parser).unread(),
            final(parser).groups(),
            r is Ok,
        ),
        final(parser).groups() == old(parser).groups(),
        r is Ok ==> final(parser).unread().len() < old(parser).unread().len(),
        r matches Ok(node) ==> group_span(node@) == 0,
        r matches Ok(node) ==> tree_wf(node@),
{
    if parser.can_parse_escaped() {
        parse_escaped(parser)
    } else {
        if !parser.can_parse_character() {
            Err(ParserError::UnableToParseChar(parser.get_remainder()))
        } else {
            let literal = parser.consume_unseen()?;
            Ok(Node::literal(literal))
        }
    }
}

pub fn parse_character_in_character_group(parser: &mut Parser) -> (r: Result<Node, ParserError>)
    ensures
        node_parsed(r, final(parser).unread(), final(parser).groups())
            == parse_character_in_character_group_spec(old(parser).unread(), old(parser).groups()),
        advances(
            old(parser).unread(),
            old(parser).groups(),
            final(parser).unread(),
            final(parser).groups(),
            r is Ok,
        ),
        final(parser).groups() == old(parser).groups(),
        r is Ok ==> final(parser).unread().len() < old(parser).unread().len(),
        r matches Ok(node) ==> group_span(node@) == 0,
        r matches Ok(node) ==> tree_wf(node@),
{
    if parser.can_parse_escaped() {
        parse_escaped(parser)
    } else {
        if parser.matches(']') {
            Err(ParserError::UnableToParseChar(parser.get_remainder()))
        } else {
            let literal = parser.consume_unseen()?;
            Ok(Node::literal(literal))
        }
    }
}

pub fn parse_character_group_item(parser: &mut Parser) -> (r: Result<Node, ParserError>)
    ensures
        node_parsed(r, final(parser).unread(), final(parser).groups())
            == parse_character_group_item_spec(old(parser).unread(), old(parser).groups()),
        advances(
            old(parser).unread(),
            old(parser).groups(),
            final(parser).unread(),
            final(parser).groups(),
            r is Ok,
        ),
        final(parser).groups() == old(parser).groups(),
        r is Ok ==> final(parser).unread().len() < old(parser).unread().len(),
        r matches Ok(node) ==> group_span(node@) == 0,
        r matches Ok(node) ==> tree_wf(node@),
{
    if parser.can_parse_character_class() {
        parse_character_class(parser)
    } else {
        if parser.can_parse_character_range() {
            parse_character_range(parser)
        } else {
            parse_character_in_character_group(parser)
        }
    }
}

pub fn parse_character_group(parser: &mut Parser) -> (r: Result<Node, ParserError>)
    ensures
        node_parsed(r, final(parser).unread(), final(parser).groups())
            == parse_character_group_spec(old(parser).unread(), old(parser).groups()),
        advances(
            old(parser).unread(),
            old(parser).groups(),
            final(parser).unread(),
            final(parser).groups(),
            r is Ok,
        ),
        final(parser).groups() == old(parser).groups(),
        r is Ok ==> final(parser).unread().len() < old(parser).unread().len(),
        r matches Ok(node) ==> group_span(node@) == 0,
        r matches Ok(node) ==> tree_wf(node@),
{
    parser.consume('[')?;
    let mut negated = false;
    if parser.matches('^') {
        negated = true;
        parser.advance_by(1);
    }
    let ghost body = parser.unread();
    let ghost groups = parser.groups();
    let mut items: Vec<Box<Node>> = Vec::new();
    loop
        invariant
            parser.groups() == groups,
            groups == old(parser).groups(),
            parser.unread().len() <= body.len(),
            body.len() < old(parser).unread().len(),
            has_at(old(parser).unread(), 0, '['),
            negated == has_at(old(parser).unread().skip(1), 0, '^'),
            body == if negated {
                old(parser).unread().skip(1).skip(1)
            } else {
                old(parser).unread().skip(1)
            },
            parse_character_group_items_spec(body, groups, Seq::empty())
                == parse_character_group_items_spec(parser.unread(), groups, node_views(items@)),
            trees_wf(node_views(items@)),
        ensures
            parser.groups() == groups,
            parser.unread().len() <= body.len(),
            trees_wf(node_views(items@)),
            parse_character_group_items_spec(body, groups, Seq::empty()) == done(
                node_views(items@),
                parser.unread(),
                groups,
            ),
        decreases parser.unread().len(),
    {
        match parse_character_group_item(parser) {
            Ok(node) => {
                let boxed = Box::new(node);
                proof {
                    lemma_node_views_push(items@, boxed);
                    lemma_trees_wf_push(node_views(items@), boxed@);
                }
                items.push(boxed);
            },
            Err(err) => {
                if let ParserError::UnableToParseChar(_) = err {
                    break ;
                } else {
                    return Err(err);
                }
            },
        }
    }
    parser.consume(']')?;
    proof {
        lemma_node_views(items@);
    }
    if items.is_empty() {
        Err(ParserError::CantParseCharGroup(parser.get_remainder()))
    } else {
        Ok(Node::class(items, negated))
    }
}

pub fn parse_match_item(parser: &mut Parser) -> (r: Result<Node, ParserError>)
    ensures
        node_parsed(r, final(parser).unread(), final(parser).groups()) == parse_match_item_spec(
            old(parser).unread(),
            old(parser).groups(),
        ),
        advances(
            old(parser).unread(),
            old(parser).groups(),
            final(parser).unread(),
            final(parser).groups(),
            r is Ok,
        ),
        final(parser).groups() == old(parser).groups(),
        r is Ok ==> final(parser).unread().len() < old(parser).unread().len(),
        r matches Ok(node) ==> group_span(node@) == 0,
        r matches Ok(node) ==> tree_wf(node@),
{
    if parser.matches('.') {
        parser.consume('.')?;
        Ok(Node::AnyCharacter)
    } else if parser.can_parse_character_class() {
        parse_character_class(parser)
    } else if parser.can_parse_character_group() {
        parse_character_group(parser)
    } else {
        parse_character(parser)
    }
}

/// The result of a step without a parser state, as the grammar speaks of it.
pub open spec fn result_view<T>(r: Result<T, ParserError>) -> Result<T, ParserErrorView> {
    match r {
        Ok(value) => Ok(value),
        Err(e) => Err(e@),
    }
}

pub fn validate_range_quantifier(lower: u64, upper: UpperBound, lazy: bool) -> (r: Result<
    Quantifier,
    ParserError,
>)
    ensures
        result_view(r) == validate_range_quantifier_spec(lower, upper, lazy),
        r matches Ok(quantifier) ==> quantifier.wf(),
{
    match upper {
        UpperBound::Bounded(upper_digit) => {
            if upper_digit < lower {
                Err(ParserError::InvalidRangeQuantifier(lower, upper_digit))
            } else {
                Ok(Quantifier::Range(lower, upper, lazy))
            }
        },
        _ => Ok(Quantifier::Range(lower, upper, lazy)),
    }
}

/// Tests [`is_digit`].
pub fn digit(c: char) -> (r: bool)
    ensures
        r == is_digit(c),
{
    '0' <= c && c <= '9'
}

/// The bound of a range from what the conversion of its digits gave: the
/// number, or the error that says the digits are no bound.
pub fn range_bound(converted: Result<u64, ParseIntError>) -> (r: Result<u64, ParserError>)
    ensures
        result_view(r) == match converted {
            Ok(number) => Ok::<u64, ParserErrorView>(number),
            Err(cause) => Err(ParserErrorView::CantParseRangeBound(cause)),
        },
{
    match converted {
        Ok(num) => Ok(num),
        Err(parse_int_error) => Err(ParserError::CantParseRangeBound(parse_int_error)),
    }
}

pub fn parse_int(parser: &mut Parser) -> (r: Result<u64, ParserError>)
    ensures
        plain_parsed(r, final(parser).unread(), final(parser).groups()) == parse_int_spec(
            old(parser).unread(),
            old(parser).groups(),
        ),
        final(parser).groups() == old(parser).groups(),
        final(parser).unread().len() <= old(parser).unread().len(),
{
    let ghost start = parser.unread();
    let mut digits: Vec<char> = Vec::new();
    loop
        invariant
            parser.groups() == old(parser).groups(),
            start == old(parser).unread(),
            digits@.len() <= start.len(),
            digits@ == start.take(digits@.len() as int),
            parser.unread() == start.skip(digits@.len() as int),
            all_digits(digits@),
            digit_prefix_len(start) == digits@.len() + digit_prefix_len(parser.unread()),
        ensures
            parser.groups() == old(parser).groups(),
            digits@.len() <= start.len(),
            digits@ == start.take(digits@.len() as int),
            parser.unread() == start.skip(digits@.len() as int),
            all_digits(digits@),
            digit_prefix_len(start) == digits@.len(),
        decreases parser.unread().len(),
    {
        let mut more = false;
        if let Ok(found) = parser.peek() {
            if digit(found) {
                more = true;
                proof {
                    let count = digits@.len() as int;
                    assert(start.take(count).push(found) =~= start.take(count + 1));
                    assert(start.skip(count).skip(1) =~= start.skip(count + 1));
                }
                digits.push(found);
                parser.advance_by(1);
            }
        }
        if !more {
            break ;
        }
    }
    let number_stream = text_of_chars(&digits);
    range_bound(text_to_u64(number_stream.as_str()))
}

pub fn parse_range_quantifier(parser: &mut Parser) -> (r: Result<Quantifier, ParserError>)
    ensures
        plain_parsed(r, final(parser).unread(), final(parser).groups())
            == parse_range_quantifier_spec(old(parser).unread(), old(parser).groups()),
        final(parser).groups() == old(parser).groups(),
        final(parser).unread().len() <= old(parser).unread().len(),
        r matches Ok(quantifier) ==> quantifier.wf(),
{
    parser.consume('{')?;
    let mut lower: u64 = 0;
    if !parser.matches(',') {
        lower = parse_int(parser)?;
    }
    let mut upper = UpperBound::Undefined;
    if let Ok(_) = parser.consume(',') {
        upper = UpperBound::Unbounded;
        if let Ok(c) = parser.peek() {
            if digit(c) {
                let bound = parse_int(parser)?;
                upper = UpperBound::Bounded(bound);
            }
        }
    }
    parser.consume('}')?;
    let mut lazy = false;
    if parser.matches('?') {
        parser.advance_by(1);
        lazy = true;
    }
    validate_range_quantifier(lower, upper, lazy)
}

pub fn parse_quantifier(parser: &mut Parser) -> (r: Result<Quantifier, ParserError>)
    ensures
        plain_parsed(r, final(parser).unread(), final(parser).groups()) == parse_quantifier_spec(
            old(parser).unread(),
            old(parser).groups(),
        ),
        final(parser).groups() == old(parser).groups(),
        final(parser).unread().len() <= old(parser).unread().len(),
        r matches Ok(quantifier) ==> quantifier.wf(),
{
    if parser.matches('{') {
        parse_range_quantifier(parser)
    } else {
        let char_literal = parser.consume_unseen()?;
        if char_literal == '*' || char_literal == '+' || char_literal == '?' {
            let lazy = if let Ok(_) = parser.consume('?') {
                true
            } else {
                false
            };
            if char_literal == '*' {
                Ok(Quantifier::ZeroOrMore(lazy))
            } else if char_literal == '+' {
                Ok(Quantifier::OneOrMore(lazy))
            } else {
                Ok(Quantifier::ZeroOrOne(lazy))
            }
        } else {
            Err(ParserError::UnrecognizedQuantifier(char_literal))
        }
    }
}

/// The quantifier that follows an item, or [`Quantifier::Absent`].
pub fn parse_optional_quantifier(parser: &mut Parser) -> (r: Result<Quantifier, ParserError>)
    ensures
        plain_parsed(r, final(parser).unread(), final(parser).groups())
            == parse_optional_quantifier_spec(old(parser).unread(), old(parser).groups()),
        final(parser).groups() == old(parser).groups(),
        final(parser).unread().len() <= old(parser).unread().len(),
        r matches Ok(quantifier) ==> quantifier.wf(),
{
    if parser.can_parse_quantifier() {
        parse_quantifier(parser)
    } else {
        Ok(Quantifier::Absent)
    }
}

pub fn parse_anchor(parser: &mut Parser) -> (r: Result<Node, ParserError>)
    ensures
        node_parsed(r, final(parser).unread(), final(parser).groups()) == parse_anchor_spec(
            old(parser).unread(),
            old(parser).groups(),
        ),
        advances(
            old(parser).unread(),
            old(parser).groups(),
            final(parser).unread(),
            final(parser).groups(),
            r is Ok,
        ),
        final(parser).groups() == old(parser).groups(),
        r is Ok ==> final(parser).unread().len() < old(parser).unread().len(),
        r matches Ok(node) ==> group_span(node@) == 0,
        r matches Ok(node) ==> tree_wf(node@),
{
    match parser.consume('\\') {
        Ok(_) => {
            let char_literal = parser.consume_unseen()?;
            if char_literal == 'a' {
                Ok(Node::StartOfStringOnly)
            } else if char_literal == 'b' {
                Ok(Node::WordBoundary)
            } else if char_literal == 'B' {
                Ok(Node::NonWordBoundary)
            } else if char_literal == 'z' {
                Ok(Node::EndOfStringOnlyNotNewline)
            } else if char_literal == 'Z' {
                Ok(Node::EndOfStringOnlyMaybeNewLine)
            } else {
                Err(ParserError::UnrecognizedAnchor(parser.get_remainder(), char_literal))
            }
        },
        Err(err) => {
            if parser.matches('^') {
                parser.advance_by(1);
                Ok(Node::StartOfString)
            } else if parser.matches('$') {
                parser.advance_by(1);
                Ok(Node::EndOfString)
            } else {
                Err(err)
            }
        },
    }
}

pub fn parse_match(parser: &mut Parser) -> (r: Result<Node, ParserError>)
    ensures
        node_parsed(r, final(parser).unread(), final(parser).groups()) == parse_match_spec(
            old(parser).unread(),
            old(parser).groups(),
        ),
        advances(
            old(parser).unread(),
            old(parser).groups(),
            final(parser).unread(),
            final(parser).groups(),
            r is Ok,
        ),
        final(parser).groups() == old(parser).groups(),
        r is Ok ==> final(parser).unread().len() < old(parser).unread().len(),
        r matches Ok(node) ==> group_span(node@) == 0,
        r matches Ok(node) ==> tree_wf(node@),
{
    let match_item = parse_match_item(parser)?;
    let quantifier = parse_optional_quantifier(parser)?;
    Ok(Node::quantified(match_item, quantifier))
}

pub fn parse_group(parser: &mut Parser) -> (r: Result<Node, ParserError>)
    requires
        old(parser).groups() + old(parser).unread().len() <= usize::MAX,
    ensures
        node_parsed(r, final(parser).unread(), final(parser).groups()) == parse_group_spec(
            old(parser).unread(),
            old(parser).groups(),
        ),
        advances(
            old(parser).unread(),
            old(parser).groups(),
            final(parser).unread(),
            final(parser).groups(),
            r is Ok,
        ),
        r is Ok ==> final(parser).unread().len() < old(parser).unread().len(),
        r matches Ok(node) ==> group_span(node@) <= final(parser).groups(),
        r matches Ok(node) ==> tree_wf(node@),
    decreases old(parser).unread().len(), 0nat,
{
    parser.consume('(')?;
    let marker: [char; 2] = ['?', ':'];
    proof {
        assert(marker@ =~= seq!['?', ':']);
    }
    let group_index = if parser.matches_several(marker.as_slice()) {
        parser.advance_by(2);
        None
    } else {
        parser.increment_group_count();
        Some(parser.group_count() - 1)
    };
    let expression = if parser.matches('?') {
        Node::EmptyString
    } else {
        parse_expression(parser)?
    };
    parser.consume(')')?;
    let quantifier = parse_optional_quantifier(parser)?;
    Ok(Node::group(expression, group_index, quantifier))
}

pub fn parse_sub_expression_item(parser: &mut Parser) -> (r: Result<Node, ParserError>)
    requires
        old(parser).groups() + old(parser).unread().len() <= usize::MAX,
    ensures
        node_parsed(r, final(parser).unread(), final(parser).groups())
            == parse_sub_expression_item_spec(old(parser).unread(), old(parser).groups()),
        advances(
            old(parser).unread(),
            old(parser).groups(),
            final(parser).unread(),
            final(parser).groups(),
            r is Ok,
        ),
        r is Ok ==> final(parser).unread().len() < old(parser).unread().len(),
        r matches Ok(node) ==> group_span(node@) <= final(parser).groups(),
        r matches Ok(node) ==> tree_wf(node@),
    decreases old(parser).unread().len(), 1nat,
{
    if parser.can_parse_group() {
        parse_group(parser)
    } else if parser.can_parse_anchor() {
        parse_anchor(parser)
    } else {
        parse_match(parser)
    }
}

pub fn parse_expression(parser: &mut Parser) -> (r: Result<Node, ParserError>)
    requires
        old(parser).groups() + old(parser).unread().len() <= usize::MAX,
    ensures
        node_parsed(r, final(parser).unread(), final(parser).groups()) == parse_expression_spec(
            old(parser).unread(),
            old(parser).groups(),
        ),
        advances(
            old(parser).unread(),
            old(parser).groups(),
            final(parser).unread(),
            final(parser).groups(),
            r is Ok,
        ),
        r is Ok ==> final(parser).unread().len() < old(parser).unread().len(),
        r matches Ok(node) ==> group_span(node@) <= final(parser).groups(),
        r matches Ok(node) ==> tree_wf(node@),
    decreases old(parser).unread().len(), 3nat,
{
    let ghost start = parser.unread();
    let ghost start_groups = parser.groups();
    let mut items: Vec<Box<Node>> = Vec::new();
    loop
        invariant
            start == old(parser).unread(),
            start_groups == old(parser).groups(),
            start_groups + start.len() <= usize::MAX,
            parse_items_spec(start, start_groups, Seq::empty()) == parse_items_spec(
                parser.unread(),
                parser.groups(),
                node_views(items@),
            ),
            advances(start, start_groups, parser.unread(), parser.groups(), true),
            group_span_all(node_views(items@)) <= parser.groups(),
            items@.len() > 0 ==> parser.unread().len() < start.len(),
            trees_wf(node_views(items@)),
        ensures
            trees_wf(node_views(items@)),
            parse_items_spec(start, start_groups, Seq::empty()) == done(
                node_views(items@),
                parser.unread(),
                parser.groups(),
            ),
            advances(start, start_groups, parser.unread(), parser.groups(), true),
            group_span_all(node_views(items@)) <= parser.groups(),
            items@.len() > 0 ==> parser.unread().len() < start.len(),
        decreases parser.unread().len(),
    {
        if !parser.can_parse_sub_expression_item() {
            break ;
        }
        let item = parse_sub_expression_item(parser)?;
        let boxed = Box::new(item);
        proof {
            lemma_node_views_push(items@, boxed);
            lemma_group_span_all_push(node_views(items@), boxed@);
            lemma_trees_wf_push(node_views(items@), boxed@);
        }
        items.push(boxed);
    }
    proof {
        lemma_node_views(items@);
    }
    if items.is_empty() {
        return Err(ParserError::InvalidExpression(parser.get_remainder()));
    }
    if parser.matches('|') {
        parser.advance_by(1);
        if parser.can_parse_sub_expression_item() {
            let other = parse_expression(parser)?;
            Ok(Node::alternation(items, other))
        } else {
            Ok(Node::EmptyString)
        }
    } else {
        Ok(Node::sequence(items))
    }
}

/// Tests [`is_modifier`].
pub fn modifier(c: char) -> (r: bool)
    ensures
        r == is_modifier(c),
{
    c == 'i' || c == 'm' || c == 's' || c == 'x'
}

/// The option that an inline modifier switches on.
pub fn flag_of_modifier(c: char) -> (flag: RegexFlags)
    ensures
        flag == modifier_flag(c),
{
    if c == 'i' {
        RegexFlags::ignore_case()
    } else if c == 's' {
        RegexFlags::dot_all()
    } else if c == 'm' {
        RegexFlags::multiline()
    } else if c == 'x' {
        RegexFlags::free_spacing()
    } else {
        RegexFlags::no_flag()
    }
}

/// The result of reading the inline modifiers, with the state left, as the
/// grammar speaks of it.
pub open spec fn prelude_of(r: Result<bool, ParserError>, rest: Seq<char>, flags: RegexFlags) -> Prelude {
    Prelude { result: result_view(r), rest, flags }
}

/// Whether a modifier block starts at the parser's place: `(` and `?`.
pub fn at_block(parser: &mut Parser) -> (r: bool)
    ensures
        final(parser).unread() == old(parser).unread(),
        final(parser).groups() == old(parser).groups(),
        r == at_modifier_block(old(parser).unread()),
{
    let first = parser.peek_at(0);
    let second = parser.peek_at(1);
    first == Some('(') && second == Some('?')
}

/// Switches on the options of the modifier letters.
pub fn switch_on(flags: &mut RegexFlags, letters: &Vec<char>)
    ensures
        *final(flags) == apply_modifiers(*old(flags), letters@),
{
    let ghost initial = *flags;
    let mut i: usize = 0;
    while i < letters.len()
        invariant
            i <= letters.len(),
            *flags == apply_modifiers(initial, letters@.take(i as int)),
        decreases letters.len() - i,
    {
        proof {
            assert(letters@.take(i + 1).drop_last() =~= letters@.take(i as int));
        }
        *flags = flags.union(flag_of_modifier(letters[i]));
        i += 1;
    }
    proof {
        assert(letters@.take(i as int) =~= letters@);
    }
}

/// Reads the inline modifiers at the head of a pattern: see
/// [`parse_inline_modifiers_spec`]. Options are switched on only when the
/// result is not an error; none is cleared, and none but the four that
/// modifiers stand for is touched. Where no modifier block starts, nothing
/// is read and the options stay as they are.
pub fn parse_inline_modifiers(parser: &mut Parser, flags: &mut RegexFlags) -> (r: Result<
    bool,
    ParserError,
>)
    ensures
        prelude_of(r, final(parser).unread(), *final(flags)) == parse_inline_modifiers_spec(
            old(parser).unread(),
            *old(flags),
        ),
        final(parser).groups() == old(parser).groups(),
        final(parser).unread().len() <= old(parser).unread().len(),
        r is Err ==> *final(flags) == *old(flags),
        !at_modifier_block(old(parser).unread()) ==> *final(flags) == *old(flags) && final(parser).unread() == old(parser).unread(),
        final(flags).bits & old(flags).bits == old(flags).bits,
        final(flags).bits | 15 == old(flags).bits | 15,
{
    proof {
        lemma_apply_modifiers_bits(*flags, Seq::empty());
    }
    if !at_block(parser) {
        return Ok(true);
    }
    let mut letters: Vec<char> = Vec::new();
    loop
        invariant
            parser.groups() == old(parser).groups(),
            parser.unread().len() <= old(parser).unread().len(),
            at_modifier_block(old(parser).unread()),
            at_modifier_block(parser.unread()),
            *flags == *old(flags),
            modifier_rounds(old(parser).unread(), Seq::empty()) == modifier_rounds(
                parser.unread(),
                letters@,
            ),
        decreases parser.unread().len(),
    {
        let saved = parser.fork();
        let ghost start = parser.unread();
        let ghost closed = letters@;
        let mut modifiers: Vec<char> = Vec::new();
        loop
            invariant
                parser.groups() == old(parser).groups(),
                parser.unread().len() <= start.len(),
                scan_modifier_blocks(start, Seq::empty()) == scan_modifier_blocks(
                    parser.unread(),
                    modifiers@,
                ),
            ensures
                parser.groups() == old(parser).groups(),
                parser.unread().len() <= start.len(),
                scan_modifier_blocks(start, Seq::empty()) == (parser.unread(), modifiers@),
            decreases parser.unread().len(),
        {
            if !at_block(parser) {
                break ;
            }
            let ghost block = parser.unread();
            let ghost before = modifiers@;
            parser.advance_by(2);
            let ghost text = parser.unread();
            loop
                invariant
                    parser.groups() == old(parser).groups(),
                    text == block.skip(2),
                    block.len() >= 2,
                    modifiers@.len() >= before.len(),
                    modifiers@.len() - before.len() <= text.len(),
                    modifiers@ == before + text.take(modifiers@.len() - before.len()),
                    parser.unread() == text.skip(modifiers@.len() - before.len()),
                    modifier_prefix_len(text) == (modifiers@.len() - before.len())
                        + modifier_prefix_len(parser.unread()),
                ensures
                    parser.groups() == old(parser).groups(),
                    modifiers@.len() >= before.len(),
                    modifiers@.len() - before.len() <= text.len(),
                    modifiers@ == before + text.take(modifiers@.len() - before.len()),
                    parser.unread() == text.skip(modifiers@.len() - before.len()),
                    modifier_prefix_len(text) == modifiers@.len() - before.len(),
                decreases parser.unread().len(),
            {
                let mut more = false;
                if let Ok(c) = parser.peek() {
                    if modifier(c) {
                        more = true;
                        proof {
                            let count = modifiers@.len() - before.len();
                            assert((before + text.take(count)).push(c) =~= before + text.take(
                                count + 1,
                            ));
                            assert(text.skip(count).skip(1) =~= text.skip(count + 1));
                        }
                        parser.advance_by(1);
                        modifiers.push(c);
                    }
                }
                if !more {
                    break ;
                }
            }
            proof {
                let count = modifiers@.len() - before.len();
                assert(block.skip(2 + count) =~= text.skip(count));
                assert(block.subrange(2, 2 + count) =~= text.take(count));
            }
        }
        match parser.consume(')') {
            Ok(_) => {
                let mut i: usize = 0;
                while i < modifiers.len()
                    invariant
                        i <= modifiers.len(),
                        letters@ == closed + modifiers@.take(i as int),
                    decreases modifiers.len() - i,
                {
                    proof {
                        assert((closed + modifiers@.take(i as int)).push(modifiers@[i as int])
                            =~= closed + modifiers@.take(i + 1));
                    }
                    letters.push(modifiers[i]);
                    i += 1;
                }
                proof {
                    assert(modifiers@.take(i as int) =~= modifiers@);
                }
                if !at_block(parser) {
                    proof {
                        lemma_apply_modifiers_bits(*flags, letters@);
                    }
                    switch_on(flags, &letters);
                    return Ok(true);
                }
            },
            Err(err) => {
                if modifiers.is_empty() {
                    *parser = saved;
                    proof {
                        lemma_apply_modifiers_bits(*flags, letters@);
                    }
                    switch_on(flags, &letters);
                    return Ok(true);
                } else {
                    proof {
                        lemma_apply_modifiers_bits(*flags, Seq::empty());
                    }
                    return Err(err);
                }
            },
        }
    }
}

/// Tests [`is_blank`].
pub fn blank(c: char) -> (r: bool)
    ensures
        r == is_blank(c),
{
    c == ' ' || c == '\t' || c == '\n' || c == '\r'
}

/// The pattern as the free-spacing option reads it: see
/// [`strip_free_spacing`].
pub fn strip_blanks(text: &Vec<char>) -> (stripped: Vec<char>)
    ensures
        stripped@ == strip_free_spacing(text@),
{
    let mut out: Vec<char> = Vec::new();
    let mut i: usize = 0;
    proof {
        assert(text@.skip(0) =~= text@);
        assert(out@ + strip_free_spacing(text@) =~= strip_free_spacing(text@));
    }
    while i < text.len()
        invariant
            i <= text.len(),
            strip_free_spacing(text@) == out@ + strip_free_spacing(text@.skip(i as int)),
        decreases text.len() - i,
    {
        let ghost rest = text@.skip(i as int);
        let c = text[i];
        if c == '\\' && i + 1 < text.len() {
            proof {
                assert(rest.skip(2) =~= text@.skip(i + 2));
                assert(out@.push(c).push(text@[i + 1]) + strip_free_spacing(rest.skip(2)) =~= out@
                    + (seq![rest[0], rest[1]] + strip_free_spacing(rest.skip(2))));
            }
            out.push(c);
            out.push(text[i + 1]);
            i += 2;
        } else if blank(c) {
            proof {
                assert(rest.skip(1) =~= text@.skip(i + 1));
            }
            i += 1;
        } else if c == '#' {
            let mut j: usize = i;
            while j < text.len() && text[j] != '\n'
                invariant
                    i <= j <= text.len(),
                    rest == text@.skip(i as int),
                    line_len(rest) == (j - i) + line_len(text@.skip(j as int)),
                decreases text.len() - j,
            {
                proof {
                    assert(text@.skip(j as int).skip(1) =~= text@.skip(j + 1));
                }
                j += 1;
            }
            proof {
                assert(line_len(rest) == j - i);
                assert(j > i);
                assert(rest.skip(j - i) =~= text@.skip(j as int));
            }
            i = j;
        } else {
            proof {
                assert(rest.skip(1) =~= text@.skip(i + 1));
                assert(out@.push(c) + strip_free_spacing(rest.skip(1)) =~= out@ + (seq![rest[0]]
                    + strip_free_spacing(rest.skip(1))));
            }
            out.push(c);
            i += 1;
        }
    }
    proof {
        assert(out@ + strip_free_spacing(text@.skip(i as int)) =~= out@);
    }
    out
}

/// Reads all that is left of the pattern.
pub fn read_to_end(parser: &mut Parser) -> (text: Vec<char>)
    ensures
        text@ == old(parser).unread(),
        final(parser).unread().len() == 0,
        final(parser).groups() == old(parser).groups(),
{
    let ghost start = parser.unread();
    let mut text: Vec<char> = Vec::new();
    loop
        invariant
            start == old(parser).unread(),
            parser.groups() == old(parser).groups(),
            text@.len() <= start.len(),
            text@ == start.take(text@.len() as int),
            parser.unread() == start.skip(text@.len() as int),
        ensures
            parser.groups() == old(parser).groups(),
            text@ == start,
            parser.unread().len() == 0,
        decreases parser.unread().len(),
    {
        match parser.consume_unseen() {
            Ok(c) => {
                proof {
                    let count = text@.len() as int;
                    assert(start.take(count).push(c) =~= start.take(count + 1));
                    assert(start.skip(count).skip(1) =~= start.skip(count + 1));
                }
                text.push(c);
            },
            Err(_) => {
                proof {
                    assert(start.take(text@.len() as int) =~= start);
                }
                break ;
            },
        }
    }
    text
}

/// Puts the leading `^` in front of the items of the expression after it.
pub fn splice_anchor(expression: Node) -> (node: Node)
    ensures
        node@ == splice_start_anchor(expression@),
        group_span(node@) == group_span(expression@),
        tree_wf(expression@) ==> tree_wf(node@),
{
    match expression {
        Node::Expression(mut items, alternative) => {
            let ghost before = items@;
            let anchor = Box::new(Node::StartOfString);
            proof {
                lemma_node_views_insert(before, anchor);
                lemma_group_span_all_insert(node_views(before), NodeView::StartOfString);
                if tree_wf(expression@) {
                    lemma_trees_wf_insert(node_views(before), NodeView::StartOfString);
                }
            }
            items.insert(0, anchor);
            Node::Expression(items, alternative)
        },
        other => {
            let ghost inner = other@;
            let items = vec![Box::new(Node::StartOfString), Box::new(other)];
            proof {
                lemma_node_views(items@);
                assert(node_views(items@) =~= seq![NodeView::StartOfString, inner]);
                lemma_group_span_all_push(seq![NodeView::StartOfString], inner);
                assert(seq![NodeView::StartOfString].push(inner) =~= seq![
                    NodeView::StartOfString,
                    inner,
                ]);
                lemma_group_span_all_push(Seq::empty(), NodeView::StartOfString);
                assert(Seq::<NodeView>::empty().push(NodeView::StartOfString) =~= seq![
                    NodeView::StartOfString,
                ]);
                if tree_wf(inner) {
                    lemma_trees_wf_all(node_views(items@));
                }
            }
            Node::Expression(items, None)
        },
    }
}

/// Parses the expression that is the whole pattern after the modifiers: an
/// optional leading `^`, an expression, and nothing after it.
pub fn parse_whole(parser: &mut Parser) -> (r: Result<Node, ParserError>)
    requires
        old(parser).groups() == 0,
        old(parser).unread().len() <= usize::MAX,
    ensures
        crate::parser::tree_view(r) == parse_whole_spec(old(parser).unread()),
        r matches Ok(node) ==> 2 * group_span(node@) <= usize::MAX,
        r matches Ok(node) ==> tree_wf(node@),
{
    if let Ok(_) = parser.consume('^') {
        if parser.within_bounds() {
            let expr = parse_expression(parser)?;
            if parser.within_bounds() {
                return Err(ParserError::SuffixRemaining(parser.get_remainder()));
            }
            Ok(splice_anchor(expr))
        } else {
            Ok(Node::StartOfString)
        }
    } else {
        let expr = parse_expression(parser)?;
        if parser.within_bounds() {
            Err(ParserError::SuffixRemaining(parser.get_remainder()))
        } else {
            Ok(expr)
        }
    }
}

/// The tree or the error of a parse, as the grammar speaks of it.
pub open spec fn tree_view(r: Result<Node, ParserError>) -> Result<NodeView, ParserErrorView> {
    match r {
        Ok(node) => Ok(node@),
        Err(e) => Err(e@),
    }
}

/// Whether a result and the options left behind are what parsing the
/// pattern under the given options yields.
pub open spec fn parsed_as(
    input: Seq<char>,
    flags: RegexFlags,
    r: Result<Node, ParserError>,
    flags_after: RegexFlags,
) -> bool {
    (ParseOutcome { result: tree_view(r), flags: flags_after }) == run_parse_spec(input, flags)
}

/// Parses a pattern into its syntax tree. Inline modifiers at the head of
/// the pattern are added to `flags`. The result is exactly what
/// [`run_parse_spec`] defines; on success the group numbers of the tree are
/// small enough for two capture slots each.
pub fn run_parse(input: &str, flags: &mut RegexFlags) -> (r: Result<Node, ParserError>)
    ensures
        parsed_as(input@, *old(flags), r, *final(flags)),
        r matches Ok(node) ==> 2 * group_span(node@) <= usize::MAX,
        r matches Ok(node) ==> tree_wf(node@),
        !at_modifier_block(input@) ==> *final(flags) == *old(flags),
        final(flags).bits & old(flags).bits == old(flags).bits,
        final(flags).bits | 15 == old(flags).bits | 15,
{
    proof {
        lemma_apply_modifiers_bits(*flags, Seq::empty());
    }
    if input.is_empty() {
        return Ok(Node::EmptyString);
    }
    let mut parser = Parser::new(input);
    parse_inline_modifiers(&mut parser, flags)?;
    if flags.contains(RegexFlags::free_spacing()) {
        let text = read_to_end(&mut parser);
        let stripped = strip_blanks(&text);
        let body = text_of_chars(&stripped);
        let mut inner = Parser::new(body.as_str());
        parse_whole(&mut inner)
    } else {
        parse_whole(&mut parser)
    }
}

/// Parsing is determined by the pattern and the options: two parses of the
/// same pattern under the same options give trees of the same structure, or
/// the same error, and leave the same options.
pub proof fn lemma_parse_is_determined(
    input: Seq<char>,
    flags: RegexFlags,
    first: Result<Node, ParserError>,
    first_flags: RegexFlags,
    second: Result<Node, ParserError>,
    second_flags: RegexFlags,
)
    requires
        parsed_as(input, flags, first, first_flags),
        parsed_as(input, flags, second, second_flags),
    ensures
        tree_view(first) == tree_view(second),
        first_flags == second_flags,
{
}

} // verus!
