use reg_rust::engine::RegexNFAMatches;
use reg_rust::fsm::{RegexNFA, Transition};
use reg_rust::matching::{characters, Context, Cursor, Match};
use reg_rust::node::{Node, ParserError, Quantifier};
use reg_rust::utils::RegexFlags;

fn all_matches(pattern: &str, text: &str) -> Vec<(usize, usize, Option<String>)> {
    let regex = RegexNFA::new(pattern).unwrap();
    let mut scan: RegexNFAMatches = regex.find_iter(text);
    let mut out = Vec::new();
    while let Some(m) = scan.next() {
        let (start, end) = m.span();
        out.push((start, end, m.group(0)));
    }
    assert!(scan.next().is_none());
    out
}

fn spans(pattern: &str, text: &str) -> Vec<(usize, usize)> {
    all_matches(pattern, text).into_iter().map(|(s, e, _)| (s, e)).collect()
}

fn some(text: &str) -> Option<String> {
    Some(text.to_string())
}

#[test]
fn test_simple_kleene_star() {
    let pattern = String::from("[a-z]*");
    let regex = RegexNFA::new(&pattern).unwrap();
    let items = &[
        Some("abc".to_string()),
        Some("".to_string()),
        Some("".to_string()),
    ];
    let mut scan = regex.find_iter("abcE");
    let mut index = 0;
    while let Some(m) = scan.next() {
        assert_eq!(m.group(0), items[index]);
        index += 1;
    }
    assert_eq!(index, 3);
}

#[test]
fn kleene_star_spans() {
    assert_eq!(
        all_matches("[a-z]*", "abcE"),
        vec![(0, 3, some("abc")), (3, 3, some("")), (4, 4, some(""))]
    );
}

#[test]
fn plus_is_greedy() {
    assert_eq!(all_matches("a+", "aaab"), vec![(0, 3, some("aaa"))]);
}

#[test]
fn lazy_plus_takes_the_least() {
    assert_eq!(spans("a+?", "aaab"), vec![(0, 1), (1, 2), (2, 3)]);
}

#[test]
fn optional_group_that_is_not_entered_is_absent() {
    let regex = RegexNFA::new("(a)(b)?").unwrap();
    assert_eq!(regex.group_count(), 2);
    let mut scan = regex.find_iter("a");
    let m = scan.next().unwrap();
    assert_eq!(m.span(), (0, 1));
    assert_eq!(m.group(0), some("a"));
    assert_eq!(m.group(1), some("a"));
    assert_eq!(m.group(2), None);
    assert_eq!(m.groups(), vec![some("a"), None]);
    assert!(scan.next().is_none());
}

#[test]
fn groups_record_their_last_pass() {
    let regex = RegexNFA::new("(a|b)+(c)").unwrap();
    let mut scan = regex.find_iter("xabac");
    let m = scan.next().unwrap();
    assert_eq!(m.span(), (1, 5));
    assert_eq!(m.groups(), vec![some("a"), some("c")]);
    assert_eq!(m.group(3), None);
}

#[test]
fn literal_pattern_is_found_anywhere() {
    let regex = RegexNFA::new("bc").unwrap();
    assert!(regex.is_match("abcd"));
    assert!(regex.is_match("bc"));
    assert!(!regex.is_match("b c"));
    assert!(!regex.is_match(""));
    assert_eq!(regex.find("abcd"), some("bc"));
    assert_eq!(regex.find("acbd"), None);
    assert_eq!(spans("bc", "bcabcbc"), vec![(0, 2), (3, 5), (5, 7)]);
}

#[test]
fn empty_pattern_matches_at_the_start_only() {
    assert_eq!(spans("", "ab"), vec![(0, 0)]);
    assert!(RegexNFA::new("").unwrap().is_match(""));
}

#[test]
fn alternation_prefers_the_left_branch() {
    assert_eq!(all_matches("ab|a", "ab"), vec![(0, 2, some("ab"))]);
    assert_eq!(all_matches("a|ab", "ab"), vec![(0, 1, some("a"))]);
    assert_eq!(spans("a|b|c", "cab"), vec![(0, 1), (1, 2), (2, 3)]);
}

#[test]
fn optional_and_star() {
    assert_eq!(spans("ab?", "abaab"), vec![(0, 2), (2, 3), (3, 5)]);
    assert_eq!(spans("ab??", "ab"), vec![(0, 1)]);
    assert_eq!(spans("ab*", "abbba"), vec![(0, 4), (4, 5)]);
    assert_eq!(spans("ab*?", "abb"), vec![(0, 1)]);
    assert_eq!(spans("(ab)*c", "ababc"), vec![(0, 5)]);
}

#[test]
fn counted_repetition() {
    assert_eq!(spans("a{2}", "aaaaa"), vec![(0, 2), (2, 4)]);
    assert_eq!(spans("a{2,}", "aaaaa"), vec![(0, 5)]);
    assert_eq!(spans("a{2,3}", "aaaaa"), vec![(0, 3), (3, 5)]);
    assert_eq!(spans("a{2,3}?", "aaaaa"), vec![(0, 2), (2, 4)]);
    assert_eq!(spans("a{,2}b", "aaab"), vec![(1, 4)]);
    assert_eq!(spans("(ab){2}", "ababab"), vec![(0, 4)]);
    assert_eq!(spans("a{0}b", "ab"), vec![(1, 2)]);
}

#[test]
fn dot_and_newline() {
    assert_eq!(spans("a.c", "abc a\nc"), vec![(0, 3)]);
    assert_eq!(spans("(?s)a.c", "abc a\nc"), vec![(0, 3), (4, 7)]);
}

#[test]
fn character_groups_and_classes() {
    assert_eq!(spans("[abx-z]+", "abyzq"), vec![(0, 4)]);
    assert_eq!(spans("[^ab]+", "abcdab"), vec![(2, 4)]);
    assert_eq!(spans("\\d+", "a12b345"), vec![(1, 3), (4, 7)]);
    assert_eq!(spans("\\D+", "12ab3"), vec![(2, 4)]);
    assert_eq!(spans("\\s", "a b\tc"), vec![(1, 2), (3, 4)]);
    assert_eq!(spans("\\S+", " ab "), vec![(1, 3)]);
    assert_eq!(spans("\\w+", "ab-1 c"), vec![(0, 4), (5, 6)]);
    assert_eq!(spans("[\\d.]+", "a1.5b"), vec![(1, 4)]);
    assert_eq!(spans("\\.", "a.b"), vec![(1, 2)]);
}

#[test]
fn ignore_case() {
    assert_eq!(spans("(?i)abc", "xABcAbC"), vec![(1, 4), (4, 7)]);
    assert_eq!(spans("(?i)[a-c]+", "ABCd"), vec![(0, 3)]);
    assert_eq!(spans("(?i)[A-C]+", "abcd"), vec![(0, 3)]);
    assert_eq!(spans("abc", "ABC"), vec![]);
    let regex = RegexNFA::with_flags("q", RegexFlags::ignore_case()).unwrap();
    assert!(regex.get_flags().contains(RegexFlags::ignore_case()));
    assert!(regex.is_match("Q"));
}

#[test]
fn line_anchors() {
    assert_eq!(spans("^a", "aa\na"), vec![(0, 1)]);
    assert_eq!(spans("(?m)^a", "aa\na"), vec![(0, 1), (3, 4)]);
    assert_eq!(spans("a$", "a\na"), vec![(2, 3)]);
    assert_eq!(spans("(?m)a$", "a\na"), vec![(0, 1), (2, 3)]);
    assert_eq!(spans("b^a", "ba"), vec![]);
    assert_eq!(spans("^", "ab"), vec![(0, 0)]);
}

#[test]
fn string_anchors() {
    let tree = Node::Expression(
        vec![
            Box::new(Node::StartOfStringOnly),
            Box::new(Node::Match(Box::new(Node::Character('a')), Quantifier::Absent)),
        ],
        None,
    );
    let regex = RegexNFA::from_node(&tree, RegexFlags::multiline());
    let mut scan = regex.find_iter("a\na");
    assert_eq!(scan.next().unwrap().span(), (0, 1));
    assert!(scan.next().is_none());
    assert_eq!(spans("a\\z", "a\n"), vec![]);
    assert_eq!(spans("a\\Z", "a\n"), vec![(0, 1)]);
    assert_eq!(spans("a\\z", "ba"), vec![(1, 2)]);
}

#[test]
fn word_boundaries() {
    assert_eq!(spans("\\bab", "ab cab ab"), vec![(0, 2), (7, 9)]);
    assert_eq!(spans("\\Bab", "ab cab"), vec![(4, 6)]);
}

#[test]
fn free_spacing_pattern() {
    assert_eq!(spans("(?x) a b # comment\n c", "xabc"), vec![(1, 4)]);
}

#[test]
fn successive_matches_do_not_overlap() {
    for (pattern, text) in [
        ("a*", "baaac"),
        ("[a-z]*", "abcE"),
        ("(a|ab)(c|bcd)?", "abcdabac"),
        ("", "abc"),
        ("x?", "xxyx"),
    ] {
        let found = spans(pattern, text);
        let length = text.chars().count();
        for (start, end) in &found {
            assert!(start <= end && *end <= length);
        }
        for pair in found.windows(2) {
            assert!(pair[0].1 <= pair[1].0);
            assert!(pair[0].0 < pair[1].0);
        }
    }
}

#[test]
fn group_zero_is_the_text_of_the_span() {
    let text = "héllo wörld";
    let chars: Vec<char> = text.chars().collect();
    for (start, end, whole) in all_matches("[a-zö]+", text) {
        let expected: String = chars[start..end].iter().collect();
        assert_eq!(whole, Some(expected));
    }
    assert_eq!(spans("[a-zö]+", text), vec![(0, 1), (2, 5), (6, 11)]);
}

#[test]
fn failing_pattern_gives_the_parser_error() {
    assert!(matches!(
        RegexNFA::new("a{3,1}"),
        Err(ParserError::InvalidRangeQuantifier(3, 1))
    ));
    assert!(matches!(
        RegexNFA::new("[z-a]"),
        Err(ParserError::InvalidCharacterRange('z', 'a'))
    ));
}

#[test]
fn automaton_of_a_literal_is_a_chain() {
    let regex = RegexNFA::new("ab").unwrap();
    assert_eq!(regex.start(), 0);
    assert_eq!(regex.accept(), 3);
    assert_eq!(regex.edge_count(), 3);
    assert_eq!(regex.group_count(), 0);
    assert_eq!(regex.out_edges(0), &vec![0]);
    assert_eq!(regex.edge(0).node, Node::Character('a'));
    assert_eq!(regex.edge(0).end, 1);
    assert_eq!(regex.edge(1).node, Node::Character('b'));
    assert_eq!(regex.edge(2).node, Node::Epsilon);
    assert_eq!(regex.edge(2).end, 3);
    assert!(regex.out_edges(3).is_empty());
}

#[test]
fn automaton_from_a_tree() {
    let tree = Node::Match(Box::new(Node::Character('a')), Quantifier::ZeroOrMore(false));
    let regex = RegexNFA::from_node(&tree, RegexFlags::no_flag());
    assert!(regex.is_match("b"));
    assert_eq!(regex.find("baa"), some(""));
    assert_eq!(regex.find("aab"), some("aa"));
}

#[test]
fn match_suffix_from_a_place() {
    let regex = RegexNFA::new("(b+)c").unwrap();
    let context = Context::new(characters("abbc"));
    assert!(regex.match_suffix(Cursor::new(0, 1), &context).is_none());
    let end = regex.match_suffix(Cursor::new(1, 1), &context).unwrap();
    assert_eq!(end.position, 4);
    assert_eq!(end.groups, vec![Some(1), Some(3)]);
    let end = regex.match_suffix(Cursor::new(2, 1), &context).unwrap();
    assert_eq!(end.position, 4);
    assert_eq!(end.groups, vec![Some(2), Some(3)]);
}

#[test]
fn cursor_new_and_update() {
    let cursor = Cursor::new(3, 2);
    assert_eq!(cursor.position, 3);
    assert_eq!(cursor.groups, vec![None, None, None, None]);
    let next = cursor.update(Node::Character('a'));
    assert_eq!(next.position, 4);
    assert_eq!(next.groups, vec![None, None, None, None]);
    let next = next.update(Node::GroupEntry(2));
    assert_eq!(next.position, 4);
    assert_eq!(next.groups, vec![None, None, Some(4), None]);
    let next = next.update(Node::GroupExit(3));
    assert_eq!(next.groups, vec![None, None, Some(4), Some(4)]);
    let next = next.update(Node::Epsilon);
    assert_eq!(next.position, 4);
    let next = next.update(Node::CharacterRange('a', 'b'));
    assert_eq!(next.position, 5);
    assert_eq!(cursor.position, 3);
}

#[test]
fn labels_accept_and_increment() {
    let context = Context::new(vec!['a', '\n']);
    let at = |position: usize| Cursor::new(position, 0);
    assert!(Node::Character('a').accepts(&at(0), &context));
    assert!(!Node::Character('a').accepts(&at(1), &context));
    assert!(!Node::Character('a').accepts(&at(2), &context));
    assert!(Node::CharacterRange('a', 'c').accepts(&at(0), &context));
    assert!(!Node::AnyCharacter.accepts(&at(1), &context));
    assert!(Node::AnyCharacter.accepts(&at(0), &context));
    assert!(Node::EmptyString.accepts(&at(0), &context));
    assert!(!Node::EmptyString.accepts(&at(1), &context));
    assert!(Node::EndOfStringOnlyNotNewline.accepts(&at(2), &context));
    assert!(!Node::EndOfStringOnlyNotNewline.accepts(&at(1), &context));
    assert!(Node::EndOfStringOnlyMaybeNewLine.accepts(&at(1), &context));
    assert!(!Node::Epsilon.accepts(&at(0), &context));
    assert!(!Node::GroupLink.accepts(&at(0), &context));
    assert!(Node::GroupEntry(0).accepts(&at(0), &context));
    assert_eq!(Node::Character('a').increment(), 1);
    assert_eq!(Node::AnyCharacter.increment(), 1);
    assert_eq!(Node::CharacterRange('a', 'b').increment(), 1);
    assert_eq!(Node::CharacterGroup(vec![], false).increment(), 1);
    assert_eq!(Node::Epsilon.increment(), 0);
    assert_eq!(Node::GroupExit(1).increment(), 0);
    assert_eq!(Node::StartOfString.increment(), 0);
    let dotall = Context::new_with_flags(vec!['\n'], RegexFlags::dot_all());
    assert!(Node::AnyCharacter.accepts(&at(0), &dotall));
    assert_eq!(dotall.flags, RegexFlags::dot_all());
    assert_eq!(context.flags, RegexFlags::no_flag());
    assert_eq!(context.text, vec!['a', '\n']);
}

#[test]
fn match_new_span_and_groups() {
    let m = Match::new(1, 3, "abcd", vec![Some(1), Some(2), None, Some(3), Some(3), Some(1)]);
    assert_eq!(m.span(), (1, 3));
    assert_eq!(m.group(0), some("bc"));
    assert_eq!(m.group(1), some("b"));
    assert_eq!(m.group(2), None);
    assert_eq!(m.group(3), None);
    assert_eq!(m.group(4), None);
    assert_eq!(m.groups(), vec![some("b"), None, None]);
    assert_eq!(m.to_string(0), some("b"));
    let outside = Match::new(2, 9, "abcd", vec![]);
    assert_eq!(outside.group(0), None);
    assert!(outside.groups().is_empty());
}

#[test]
fn transition_holds_label_and_end() {
    let t = Transition::new(Node::Epsilon, 7);
    assert_eq!(t.node, Node::Epsilon);
    assert_eq!(t.end, 7);
}

#[test]
fn flag_sets() {
    let both = RegexFlags::ignore_case().union(RegexFlags::multiline());
    assert!(both.contains(RegexFlags::ignore_case()));
    assert!(both.contains(RegexFlags::multiline()));
    assert!(!both.contains(RegexFlags::dot_all()));
    assert!(both.contains(RegexFlags::no_flag()));
    assert_eq!(both.union(RegexFlags::no_flag()), both);
    assert!(!RegexFlags::no_flag().contains(RegexFlags::free_spacing()));
}

#[test]
fn node_copies_are_equal() {
    let tree = Node::Expression(
        vec![Box::new(Node::Group(
            Box::new(Node::CharacterGroup(vec![Box::new(Node::Character('a'))], true)),
            Some(0),
            Quantifier::OneOrMore(true),
        ))],
        Some(Box::new(Node::EmptyString)),
    );
    assert_eq!(tree.clone(), tree);
    assert_eq!(tree.deep_copy(), tree);
    assert_eq!(tree.group_limit(), 1);
}

#[test]
fn search_stops_for_good() {
    let regex = RegexNFA::new("a").unwrap();
    let mut scan = regex.find_iter("ba");
    assert_eq!(scan.next().unwrap().span(), (1, 2));
    assert!(scan.next().is_none());
    assert!(scan.next().is_none());
    let mut scan = regex.find_iter("");
    assert!(scan.next().is_none());
}

#[test]
fn nested_quantifiers_come_to_an_end() {
    assert_eq!(spans("(a*)*b", "aab"), vec![(0, 3)]);
    assert_eq!(spans("(a*)*", "b"), vec![(0, 0), (1, 1)]);
    assert_eq!(spans("(a|b*)+c", "abbac"), vec![(0, 5)]);
}

#[test]
fn captures_of_alternatives() {
    let regex = RegexNFA::new("(a)|(b)").unwrap();
    let mut scan = regex.find_iter("ba");
    let first = scan.next().unwrap();
    assert_eq!(first.groups(), vec![None, some("b")]);
    let second = scan.next().unwrap();
    assert_eq!(second.groups(), vec![some("a"), None]);
    assert!(scan.next().is_none());
}

#[test]
fn non_capturing_groups_take_no_slot() {
    let regex = RegexNFA::new("(?:a)(b)").unwrap();
    assert_eq!(regex.group_count(), 1);
    let mut scan = regex.find_iter("ab");
    assert_eq!(scan.next().unwrap().groups(), vec![some("b")]);
}

#[test]
fn groups_and_priorities_together() {
    let regex = RegexNFA::new("(a+)(b+)?c").unwrap();
    let mut scan = regex.find_iter("xaabbc ac");
    let first = scan.next().unwrap();
    assert_eq!(first.span(), (1, 6));
    assert_eq!(first.groups(), vec![some("aa"), some("bb")]);
    let second = scan.next().unwrap();
    assert_eq!(second.span(), (7, 9));
    assert_eq!(second.groups(), vec![some("a"), None]);
    assert!(scan.next().is_none());

    let regex = RegexNFA::new("(a|ab)(c|bcd)(d*)").unwrap();
    let mut scan = regex.find_iter("abcd");
    let found = scan.next().unwrap();
    assert_eq!(found.span(), (0, 4));
    assert_eq!(found.groups(), vec![some("a"), some("bcd"), some("")]);

    assert_eq!(spans("a(bc|b)c", "abcc abc"), vec![(0, 4), (5, 8)]);
    assert_eq!(spans("a.*?c", "abcbc"), vec![(0, 3)]);
    assert_eq!(spans("a.*c", "abcbc"), vec![(0, 5)]);
    assert_eq!(spans("x*", "aaa"), vec![(0, 0), (1, 1), (2, 2), (3, 3)]);
}

#[test]
fn long_texts_and_counted_groups() {
    let text = "ab".repeat(500);
    assert_eq!(spans("(ab)+", &text), vec![(0, 1000)]);
    assert_eq!(spans("(ab){3}", "abababab"), vec![(0, 6)]);
    assert_eq!(spans("(a|b){2,3}?c", "ababc"), vec![(1, 5)]);
}

#[test]
fn three_groups_capture_in_two_slots() {
    let regex = RegexNFA::new("(a)(?:b)(c)").unwrap();
    assert_eq!(regex.group_count(), 2);
    let mut scan = regex.find_iter("xabc");
    let found = scan.next().unwrap();
    assert_eq!(found.span(), (1, 4));
    assert_eq!(found.groups(), vec![some("a"), some("c")]);
    assert!(scan.next().is_none());
}

#[test]
fn capture_offsets_lie_in_the_span_of_the_match() {
    for (pattern, text) in [
        ("(a+)(b+)?c", "xaabbc ac"),
        ("((a)|(b))*c", "abac bc"),
        ("(?:(a)b)*", "abab"),
        ("(a|(b))+", "abba"),
    ] {
        let regex = RegexNFA::new(pattern).unwrap();
        let context = Context::new_with_flags(characters(text), regex.get_flags());
        for start in 0..=text.len() {
            let cursor = Cursor::new(start, regex.group_count());
            if let Some(end) = regex.match_suffix(cursor, &context) {
                assert!(start <= end.position && end.position <= text.len());
                assert_eq!(end.groups.len(), 2 * regex.group_count());
                for slot in &end.groups {
                    if let Some(at) = slot {
                        assert!(start <= *at && *at <= end.position);
                    }
                }
                for pair in end.groups.chunks(2) {
                    if let Some(exit) = pair[1] {
                        assert!(pair[0].is_some() && pair[0].unwrap() <= exit);
                    }
                }
            }
        }
    }
}
