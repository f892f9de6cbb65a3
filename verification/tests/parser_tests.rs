use reg_rust::node::{Node, ParserError, Quantifier, UpperBound};
use reg_rust::parser::{
    parse_character, parse_character_group, parse_expression, parse_group,
    parse_inline_modifiers, parse_int, parse_match_item, parse_quantifier, read_to_end, run_parse, strip_blanks,
    validate_range_quantifier,
};
use reg_rust::stream::Parser;
use reg_rust::utils::RegexFlags;

fn parse(pattern: &str) -> Result<Node, ParserError> {
    let mut flags = RegexFlags::no_flag();
    run_parse(pattern, &mut flags)
}

fn literal(c: char) -> Box<Node> {
    Box::new(Node::Match(Box::new(Node::Character(c)), Quantifier::Absent))
}

#[test]
fn parser_new() {
    let mut p = Parser::new("abc");
    assert_eq!(p.group_count(), 0);
    assert_eq!(p.consume_unseen(), Ok('a'));
    assert_eq!(p.consume_unseen(), Ok('b'));
    assert_eq!(p.consume_unseen(), Ok('c'));
    assert_eq!(p.consume_unseen(), Err(ParserError::UnexexpectedEOF));
}

#[test]
fn empty_pattern_is_the_empty_string_node() {
    assert_eq!(parse(""), Ok(Node::EmptyString));
}

#[test]
fn literals_parse_to_a_sequence() {
    assert_eq!(
        parse("ab"),
        Ok(Node::Expression(vec![literal('a'), literal('b')], None))
    );
}

#[test]
fn invalid_range_quantifier_is_rejected() {
    assert_eq!(parse("a{3,1}"), Err(ParserError::InvalidRangeQuantifier(3, 1)));
}

#[test]
fn invalid_character_range_is_rejected() {
    assert_eq!(parse("[z-a]"), Err(ParserError::InvalidCharacterRange('z', 'a')));
}

#[test]
fn range_quantifier_forms() {
    let expect = |q: Quantifier| {
        Ok(Node::Expression(
            vec![Box::new(Node::Match(Box::new(Node::Character('a')), q))],
            None,
        ))
    };
    assert_eq!(parse("a{3}"), expect(Quantifier::Range(3, UpperBound::Undefined, false)));
    assert_eq!(parse("a{3,}"), expect(Quantifier::Range(3, UpperBound::Unbounded, false)));
    assert_eq!(parse("a{3,5}"), expect(Quantifier::Range(3, UpperBound::Bounded(5), false)));
    assert_eq!(parse("a{,5}?"), expect(Quantifier::Range(0, UpperBound::Bounded(5), true)));
    assert_eq!(parse("a{007}"), expect(Quantifier::Range(7, UpperBound::Undefined, false)));
}

#[test]
fn range_bound_that_is_no_number_is_rejected() {
    assert!(matches!(parse("a{}"), Err(ParserError::CantParseRangeBound(_))));
    assert!(matches!(
        parse("a{99999999999999999999}"),
        Err(ParserError::CantParseRangeBound(_))
    ));
    assert_eq!(
        parse("a{18446744073709551615}"),
        Ok(Node::Expression(
            vec![Box::new(Node::Match(
                Box::new(Node::Character('a')),
                Quantifier::Range(u64::MAX, UpperBound::Undefined, false)
            ))],
            None
        ))
    );
}

#[test]
fn simple_quantifiers() {
    let expect = |q: Quantifier| {
        Ok(Node::Expression(
            vec![Box::new(Node::Match(Box::new(Node::Character('a')), q))],
            None,
        ))
    };
    assert_eq!(parse("a*"), expect(Quantifier::ZeroOrMore(false)));
    assert_eq!(parse("a+"), expect(Quantifier::OneOrMore(false)));
    assert_eq!(parse("a?"), expect(Quantifier::ZeroOrOne(false)));
    assert_eq!(parse("a*?"), expect(Quantifier::ZeroOrMore(true)));
    assert_eq!(parse("a+?"), expect(Quantifier::OneOrMore(true)));
    assert_eq!(parse("a??"), expect(Quantifier::ZeroOrOne(true)));
}

#[test]
fn groups_are_numbered_in_order_of_opening() {
    let group = |inner: Node, index: Option<usize>| {
        Box::new(Node::Group(Box::new(inner), index, Quantifier::Absent))
    };
    let seq = |items: Vec<Box<Node>>| Node::Expression(items, None);
    assert_eq!(
        parse("(a)(?:b)((c))"),
        Ok(seq(vec![
            group(seq(vec![literal('a')]), Some(0)),
            group(seq(vec![literal('b')]), None),
            group(seq(vec![group(seq(vec![literal('c')]), Some(2))]), Some(1)),
        ]))
    );
}

#[test]
fn non_capturing_group_at_the_head_of_a_pattern() {
    assert_eq!(
        parse("(?:a)"),
        Ok(Node::Expression(
            vec![Box::new(Node::Group(
                Box::new(Node::Expression(vec![literal('a')], None)),
                None,
                Quantifier::Absent
            ))],
            None
        ))
    );
}

#[test]
fn alternation_keeps_the_order_of_its_branches() {
    assert_eq!(
        parse("a|b"),
        Ok(Node::Expression(
            vec![literal('a')],
            Some(Box::new(Node::Expression(vec![literal('b')], None)))
        ))
    );
}

#[test]
fn bar_with_nothing_after_it_gives_the_empty_string_node() {
    assert_eq!(parse("a|"), Ok(Node::EmptyString));
}

#[test]
fn leading_caret_is_spliced_in_front() {
    assert_eq!(
        parse("^a"),
        Ok(Node::Expression(
            vec![Box::new(Node::StartOfString), literal('a')],
            None
        ))
    );
    assert_eq!(parse("^"), Ok(Node::StartOfString));
    assert_eq!(
        parse("^a|"),
        Ok(Node::Expression(
            vec![Box::new(Node::StartOfString), Box::new(Node::EmptyString)],
            None
        ))
    );
}

#[test]
fn anchors() {
    assert_eq!(
        parse("a$"),
        Ok(Node::Expression(vec![literal('a'), Box::new(Node::EndOfString)], None))
    );
    assert_eq!(
        parse("\\ba\\B\\z\\Z"),
        Ok(Node::Expression(
            vec![
                Box::new(Node::WordBoundary),
                literal('a'),
                Box::new(Node::NonWordBoundary),
                Box::new(Node::EndOfStringOnlyNotNewline),
                Box::new(Node::EndOfStringOnlyMaybeNewLine),
            ],
            None
        ))
    );
    assert_eq!(
        parse("\\G"),
        Err(ParserError::UnrecognizedAnchor(Box::new(String::new()), 'G'))
    );
    assert_eq!(
        parse("\\Ab"),
        Err(ParserError::UnrecognizedAnchor(Box::new("b".to_string()), 'A'))
    );
    assert_eq!(
        parse("\\aa"),
        Err(ParserError::InvalidExpression(Box::new("\\aa".to_string())))
    );
}

#[test]
fn character_classes_expand_to_groups() {
    let word = |negated: bool| {
        Node::CharacterGroup(
            vec![
                Box::new(Node::CharacterRange('0', '9')),
                Box::new(Node::CharacterRange('A', 'z')),
                Box::new(Node::CharacterRange('a', 'z')),
                Box::new(Node::Character('-')),
            ],
            negated,
        )
    };
    let wrap = |n: Node| Ok(Node::Expression(vec![Box::new(Node::Match(Box::new(n), Quantifier::Absent))], None));
    assert_eq!(parse("\\w"), wrap(word(false)));
    assert_eq!(parse("\\W"), wrap(word(true)));
    assert_eq!(
        parse("\\d"),
        wrap(Node::CharacterGroup(vec![Box::new(Node::CharacterRange('0', '9'))], false))
    );
    assert_eq!(
        parse("\\D"),
        wrap(Node::CharacterGroup(vec![Box::new(Node::CharacterRange('0', '9'))], true))
    );
    let blanks = |negated: bool| {
        Node::CharacterGroup(
            vec![
                Box::new(Node::Character(' ')),
                Box::new(Node::Character('\t')),
                Box::new(Node::Character('\n')),
            ],
            negated,
        )
    };
    assert_eq!(parse("\\s"), wrap(blanks(false)));
    assert_eq!(parse("\\S"), wrap(blanks(true)));
}

#[test]
fn character_groups() {
    let wrap = |n: Node| Ok(Node::Expression(vec![Box::new(Node::Match(Box::new(n), Quantifier::Absent))], None));
    assert_eq!(
        parse("[a-cx\\]]"),
        wrap(Node::CharacterGroup(
            vec![
                Box::new(Node::CharacterRange('a', 'c')),
                Box::new(Node::Character('x')),
                Box::new(Node::Character(']')),
            ],
            false
        ))
    );
    assert_eq!(
        parse("[^a]"),
        wrap(Node::CharacterGroup(vec![Box::new(Node::Character('a'))], true))
    );
    assert_eq!(
        parse("[]"),
        Err(ParserError::CantParseCharGroup(Box::new(String::new())))
    );
    assert_eq!(parse("[ab"), Err(ParserError::UnexexpectedEOF));
}

#[test]
fn trailing_text_is_an_error() {
    assert_eq!(
        parse("a)b"),
        Err(ParserError::SuffixRemaining(Box::new(")b".to_string())))
    );
}

#[test]
fn pattern_that_starts_with_no_item_is_invalid() {
    assert_eq!(
        parse("*a"),
        Err(ParserError::InvalidExpression(Box::new("*a".to_string())))
    );
    assert_eq!(
        parse("("),
        Err(ParserError::InvalidExpression(Box::new(String::new())))
    );
}

#[test]
fn unclosed_group_is_an_error() {
    assert_eq!(parse("(a"), Err(ParserError::UnexexpectedEOF));
    assert_eq!(
        parse("(a]"),
        Err(ParserError::UnexpectedToken(Box::new("]".to_string()), ')'))
    );
}

#[test]
fn inline_modifiers_set_flags() {
    let mut flags = RegexFlags::no_flag();
    let tree = run_parse("(?is)a", &mut flags);
    assert_eq!(tree, Ok(Node::Expression(vec![literal('a')], None)));
    assert!(flags.contains(RegexFlags::ignore_case()));
    assert!(flags.contains(RegexFlags::dot_all()));
    assert!(!flags.contains(RegexFlags::multiline()));
    assert!(!flags.contains(RegexFlags::free_spacing()));
}

#[test]
fn modifier_blocks_may_repeat() {
    let mut flags = RegexFlags::no_flag();
    let tree = run_parse("(?i(?m)a", &mut flags);
    assert_eq!(tree, Ok(Node::Expression(vec![literal('a')], None)));
    assert!(flags.contains(RegexFlags::ignore_case()));
    assert!(flags.contains(RegexFlags::multiline()));
}

#[test]
fn modifiers_without_closing_parenthesis_are_an_error() {
    let mut flags = RegexFlags::no_flag();
    assert_eq!(run_parse("(?i", &mut flags), Err(ParserError::UnexexpectedEOF));
    assert_eq!(flags, RegexFlags::no_flag());
    assert_eq!(
        run_parse("(?ia", &mut flags),
        Err(ParserError::UnexpectedToken(Box::new("a".to_string()), ')'))
    );
    assert_eq!(flags, RegexFlags::no_flag());
}

#[test]
fn free_spacing_drops_blanks_and_comments() {
    let mut flags = RegexFlags::no_flag();
    let tree = run_parse("(?x) a b # two letters\n c\\ ", &mut flags);
    assert!(flags.contains(RegexFlags::free_spacing()));
    assert_eq!(
        tree,
        Err(ParserError::SuffixRemaining(Box::new("\\ ".to_string())))
    );
    let mut flags = RegexFlags::free_spacing();
    assert_eq!(
        run_parse("a b # two letters\n c", &mut flags),
        Ok(Node::Expression(vec![literal('a'), literal('b'), literal('c')], None))
    );
}

#[test]
fn parsing_twice_gives_the_same_tree() {
    for pattern in ["(a|b)*c{2,3}?", "[a-z]+\\d", "(?i)^x$", "a{3,1}", "[z-a]", ""] {
        assert_eq!(parse(pattern), parse(pattern));
    }
}

#[test]
fn validated_range_quantifier() {
    assert_eq!(
        validate_range_quantifier(2, UpperBound::Bounded(2), false),
        Ok(Quantifier::Range(2, UpperBound::Bounded(2), false))
    );
    assert_eq!(
        validate_range_quantifier(2, UpperBound::Bounded(1), true),
        Err(ParserError::InvalidRangeQuantifier(2, 1))
    );
    assert_eq!(
        validate_range_quantifier(2, UpperBound::Unbounded, true),
        Ok(Quantifier::Range(2, UpperBound::Unbounded, true))
    );
}

#[test]
fn parser_looks_ahead_without_reading() {
    let mut p = Parser::new("(?a");
    assert!(p.matches('('));
    assert!(p.matches_several(&['(', '?']));
    assert!(!p.matches_several(&['(', '!']));
    assert!(p.matches_several(&['(', '?', 'a', 'b']));
    assert_eq!(p.peek(), Ok('('));
    assert_eq!(*p.get_remainder(), "(?a".to_string());
    p.advance_by(2);
    assert_eq!(p.consume('b'), Err(ParserError::UnexpectedToken(Box::new("a".to_string()), 'b')));
    assert_eq!(p.consume('a'), Ok('a'));
    assert!(!p.within_bounds());
    p.advance_by(3);
    assert_eq!(p.consume('a'), Err(ParserError::UnexexpectedEOF));
}

#[test]
fn parser_group_counter() {
    let mut p = Parser::new("x");
    p.increment_group_count();
    p.increment_group_count();
    assert_eq!(p.group_count(), 2);
}

#[test]
fn letter_that_is_no_modifier_ends_the_block() {
    let mut flags = RegexFlags::no_flag();
    assert_eq!(
        run_parse("(?q)", &mut flags),
        Err(ParserError::UnexpectedToken(Box::new("?q)".to_string()), ')'))
    );
    assert_eq!(flags, RegexFlags::no_flag());
    assert_eq!(
        run_parse("(?iq)", &mut flags),
        Err(ParserError::UnexpectedToken(Box::new("q)".to_string()), ')'))
    );
    assert_eq!(flags, RegexFlags::no_flag());
}

#[test]
fn empty_modifier_block_is_read() {
    let mut flags = RegexFlags::no_flag();
    assert_eq!(
        run_parse("(?)a", &mut flags),
        Ok(Node::Expression(vec![literal('a')], None))
    );
    assert_eq!(flags, RegexFlags::no_flag());
}

#[test]
fn modifiers_keep_the_flags_given() {
    let mut flags = RegexFlags::multiline();
    assert!(run_parse("(?s)a", &mut flags).is_ok());
    assert_eq!(flags, RegexFlags::multiline().union(RegexFlags::dot_all()));
}

#[test]
fn inline_modifiers_leave_the_rest_unread() {
    let mut p = Parser::new("(?im)ab");
    let mut flags = RegexFlags::no_flag();
    assert_eq!(parse_inline_modifiers(&mut p, &mut flags), Ok(true));
    assert_eq!(*p.get_remainder(), "ab".to_string());
    let mut p = Parser::new("(?:ab)");
    assert_eq!(parse_inline_modifiers(&mut p, &mut flags), Ok(true));
    assert_eq!(*p.get_remainder(), "(?:ab)".to_string());
}

#[test]
fn character_that_cannot_be_parsed() {
    let mut p = Parser::new(")a");
    assert_eq!(
        parse_character(&mut p),
        Err(ParserError::UnableToParseChar(Box::new(")a".to_string())))
    );
    assert_eq!(*p.get_remainder(), ")a".to_string());
    let mut p = Parser::new("\\)a");
    assert_eq!(parse_character(&mut p), Ok(Node::Character(')')));
    assert_eq!(*p.get_remainder(), "a".to_string());
}

#[test]
fn sign_that_is_no_quantifier() {
    let mut p = Parser::new("a");
    assert_eq!(parse_quantifier(&mut p), Err(ParserError::UnrecognizedQuantifier('a')));
    let mut p = Parser::new("");
    assert_eq!(parse_quantifier(&mut p), Err(ParserError::UnexexpectedEOF));
}

#[test]
fn number_is_read_up_to_the_first_other_character() {
    let mut p = Parser::new("0123,4");
    assert_eq!(parse_int(&mut p), Ok(123));
    assert_eq!(*p.get_remainder(), ",4".to_string());
    let mut p = Parser::new("x");
    assert!(matches!(parse_int(&mut p), Err(ParserError::CantParseRangeBound(_))));
    assert_eq!(*p.get_remainder(), "x".to_string());
}

#[test]
fn group_counts_and_leaves_the_rest() {
    let mut p = Parser::new("(a(b))c");
    assert!(parse_group(&mut p).is_ok());
    assert_eq!(p.group_count(), 2);
    assert_eq!(*p.get_remainder(), "c".to_string());
    let mut p = Parser::new("a|b)c");
    assert!(parse_expression(&mut p).is_ok());
    assert_eq!(*p.get_remainder(), ")c".to_string());
}

#[test]
fn character_group_needs_its_opening_bracket() {
    let mut p = Parser::new("(a)");
    assert_eq!(
        parse_character_group(&mut p),
        Err(ParserError::UnexpectedToken(Box::new("(a)".to_string()), '['))
    );
}

#[test]
fn blanks_and_comments_are_stripped() {
    let text: Vec<char> = "a b\\ c#x y\nd \\".chars().collect();
    let stripped: String = strip_blanks(&text).into_iter().collect();
    assert_eq!(stripped, "ab\\ cd\\".to_string());
    let mut p = Parser::new("abc");
    p.advance_by(1);
    assert_eq!(read_to_end(&mut p), vec!['b', 'c']);
    assert!(!p.within_bounds());
}

#[test]
fn parsers_are_equal_when_their_states_are() {
    let mut p = Parser::new("xab");
    let mut q = Parser::new("ab");
    assert!(p != q);
    p.advance_by(1);
    assert!(p == q);
    q.increment_group_count();
    assert!(p != q);
    let copy = q.fork();
    assert!(copy == q);
}

#[test]
fn closed_modifier_blocks_follow_one_another() {
    let mut flags = RegexFlags::no_flag();
    assert_eq!(
        run_parse("(?i)(?s)a", &mut flags),
        Ok(Node::Expression(vec![literal('a')], None))
    );
    assert_eq!(flags, RegexFlags::ignore_case().union(RegexFlags::dot_all()));

    let mut flags = RegexFlags::no_flag();
    assert_eq!(
        run_parse("(?i)(?:a)", &mut flags),
        Ok(Node::Expression(
            vec![Box::new(Node::Group(
                Box::new(Node::Expression(vec![literal('a')], None)),
                None,
                Quantifier::Absent
            ))],
            None
        ))
    );
    assert_eq!(flags, RegexFlags::ignore_case());

    let mut flags = RegexFlags::no_flag();
    assert_eq!(
        run_parse("(?)(?m)a", &mut flags),
        Ok(Node::Expression(vec![literal('a')], None))
    );
    assert_eq!(flags, RegexFlags::multiline());
}

#[test]
fn unclosed_block_behind_a_closed_one_is_an_error() {
    let mut flags = RegexFlags::no_flag();
    assert_eq!(
        run_parse("(?i)(?sa", &mut flags),
        Err(ParserError::UnexpectedToken(Box::new("a".to_string()), ')'))
    );
    assert_eq!(flags, RegexFlags::no_flag());
    assert_eq!(run_parse("(?i)(?s", &mut flags), Err(ParserError::UnexexpectedEOF));
    assert_eq!(flags, RegexFlags::no_flag());
    let mut p = Parser::new("(?i)(?s");
    assert_eq!(parse_inline_modifiers(&mut p, &mut flags), Err(ParserError::UnexexpectedEOF));
    assert_eq!(flags, RegexFlags::no_flag());
}

#[test]
fn closing_parenthesis_that_no_block_opened_is_not_read() {
    let mut flags = RegexFlags::no_flag();
    let mut p = Parser::new(")(?i)");
    assert_eq!(parse_inline_modifiers(&mut p, &mut flags), Ok(true));
    assert_eq!(*p.get_remainder(), ")(?i)".to_string());
    assert_eq!(flags, RegexFlags::no_flag());
    assert_eq!(
        run_parse(")a", &mut flags),
        Err(ParserError::InvalidExpression(Box::new(")a".to_string())))
    );
    assert_eq!(
        run_parse(")(?i)", &mut flags),
        Err(ParserError::InvalidExpression(Box::new(")(?i)".to_string())))
    );
    assert_eq!(flags, RegexFlags::no_flag());
}

#[test]
fn letters_of_all_closed_blocks_are_switched_on_together() {
    let mut flags = RegexFlags::dot_all();
    let mut p = Parser::new("(?i)(?m(?x)(?:a)");
    assert_eq!(parse_inline_modifiers(&mut p, &mut flags), Ok(true));
    assert_eq!(*p.get_remainder(), "(?:a)".to_string());
    assert_eq!(
        flags,
        RegexFlags::dot_all()
            .union(RegexFlags::ignore_case())
            .union(RegexFlags::multiline())
            .union(RegexFlags::free_spacing())
    );
}

#[test]
fn parenthesis_is_no_match_item() {
    let mut p = Parser::new("(a");
    assert_eq!(
        parse_match_item(&mut p),
        Err(ParserError::UnableToParseChar(Box::new("(a".to_string())))
    );
    assert_eq!(*p.get_remainder(), "(a".to_string());
}

#[test]
fn three_groups_of_which_one_does_not_capture() {
    let group = |inner: Node, index: Option<usize>| {
        Box::new(Node::Group(
            Box::new(Node::Expression(vec![Box::new(inner)], None)),
            index,
            Quantifier::Absent,
        ))
    };
    let item = |c: char| Node::Match(Box::new(Node::Character(c)), Quantifier::Absent);
    assert_eq!(
        parse("(a)(?:b)(c)"),
        Ok(Node::Expression(
            vec![
                group(item('a'), Some(0)),
                group(item('b'), None),
                group(item('c'), Some(1)),
            ],
            None
        ))
    );
}

fn well_formed(tree: &Node) -> bool {
    match tree {
        Node::Match(inner, quantifier) | Node::Group(inner, _, quantifier) => {
            let bounds_in_order = match quantifier {
                Quantifier::Range(lower, UpperBound::Bounded(upper), _) => lower <= upper,
                _ => true,
            };
            bounds_in_order && well_formed(inner)
        }
        Node::Expression(items, alternative) => {
            !items.is_empty()
                && items.iter().all(|item| well_formed(item))
                && alternative.as_ref().map_or(true, |other| well_formed(other))
        }
        Node::CharacterGroup(items, _) => {
            !items.is_empty() && items.iter().all(|item| well_formed(item))
        }
        Node::CharacterRange(low, high) => low <= high,
        Node::Epsilon | Node::GroupLink | Node::GroupEntry(_) | Node::GroupExit(_) => false,
        _ => true,
    }
}

#[test]
fn parsed_trees_are_well_formed() {
    for pattern in [
        "a",
        "^(a|b)*c{2,3}?$",
        "[a-z\\d_]+\\w\\S",
        "(?:x{0,0}|y{7})|z",
        "(?i)((a)(?:b))+?",
        "^a|",
        "",
    ] {
        let tree = parse(pattern).unwrap();
        assert!(well_formed(&tree), "{}", pattern);
    }
}
