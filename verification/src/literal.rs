//! Patterns made of plain characters alone: what they parse to, the
//! automaton they compile to, and the proof that such a pattern matches a
//! text exactly when it occurs in it.

use vstd::prelude::*;
use crate::engine::{
    expand_spec, first_match, fresh_cursor, fresh_marks, lemma_unvisited_mark, run_level,
    run_levels, search_context, simulate, Expansion, Level, Thread,
};
use crate::fsm::{
    body_spec, build_spec, compile_spec, leaf_spec, pattern_automaton, quantify_spec,
    sequence_spec, Automaton, Built, EdgeView, GraphView,
};
use crate::grammar::{
    done, parse_expression_spec, parse_inline_modifiers_spec, parse_items_spec,
    parse_match_item_spec, parse_match_spec, parse_optional_quantifier_spec,
    parse_sub_expression_item_spec, parse_whole_spec, run_parse_spec, scan_modifier_blocks,
    ParseOutcome,
};
use crate::matching::{cursor_update, ContextView, CursorView};
use crate::node::{group_span, group_span_all, NodeView, Quantifier};
use crate::stream::is_escaped;
use crate::utils::RegexFlags;

verus! {

/// Whether every character of the pattern stands for itself.
pub open spec fn is_literal(pattern: Seq<char>) -> bool {
    forall|i: int| 0 <= i < pattern.len() ==> !is_escaped(#[trigger] pattern[i])
}

/// The character at a place of the pattern.
pub open spec fn letter(pattern: Seq<char>, i: int) -> char {
    pattern[i]
}

/// The node that a plain character parses to.
pub open spec fn literal_item(c: char) -> NodeView {
    NodeView::Match(Box::new(NodeView::Character(c)), Quantifier::Absent)
}

/// The nodes that the characters of a literal pattern parse to.
pub open spec fn literal_items(pattern: Seq<char>) -> Seq<NodeView> {
    Seq::new(pattern.len(), |i: int| literal_item(letter(pattern, i)))
}

/// The tree of a literal pattern: its characters in a row.
pub open spec fn literal_tree(pattern: Seq<char>) -> NodeView {
    NodeView::Expression(literal_items(pattern), None)
}

/// From any place in a literal pattern, the items of an expression are the
/// plain characters up to the end.
pub proof fn lemma_parse_literal_items(
    pattern: Seq<char>,
    i: nat,
    groups: nat,
    found: Seq<NodeView>,
)
    requires
        is_literal(pattern),
        i <= pattern.len(),
    ensures
        parse_items_spec(pattern.skip(i as int), groups, found) == done(
            found + literal_items(pattern).skip(i as int),
            Seq::<char>::empty(),
            groups,
        ),
    decreases pattern.len() - i,
{
    let s = pattern.skip(i as int);
    if i == pattern.len() {
        assert(s =~= Seq::<char>::empty());
        assert(found + literal_items(pattern).skip(i as int) =~= found);
    } else {
        let c = letter(pattern, i as int);
        assert(c == s[0]);
        assert(!is_escaped(c));
        let rest = s.skip(1);
        assert(rest =~= pattern.skip(i as int + 1));
        if rest.len() > 0 {
            assert(rest[0] == pattern[i as int + 1]);
            assert(!is_escaped(rest[0]));
        }
        assert(parse_optional_quantifier_spec(rest, groups) == done(
            Quantifier::Absent,
            rest,
            groups,
        ));
        assert(parse_match_item_spec(s, groups) == done(NodeView::Character(c), rest, groups));
        assert(parse_match_spec(s, groups) == done(literal_item(c), rest, groups));
        assert(parse_sub_expression_item_spec(s, groups) == done(literal_item(c), rest, groups));
        lemma_parse_literal_items(pattern, i + 1, groups, found.push(literal_item(c)));
        assert(found.push(literal_item(c)) + literal_items(pattern).skip(i as int + 1) =~= found
            + literal_items(pattern).skip(i as int));
    }
}

/// Whether the options leave a literal pattern as it is: case counts and
/// blanks are not dropped.
pub open spec fn plain_flags(flags: RegexFlags) -> bool {
    !flags.spec_contains(RegexFlags::spec_ignore_case()) && !flags.spec_contains(
        RegexFlags::spec_free_spacing(),
    )
}

/// A literal pattern parses to its characters in a row, and the options
/// stay as they were.
pub proof fn lemma_parse_literal(pattern: Seq<char>, flags: RegexFlags)
    requires
        is_literal(pattern),
        pattern.len() > 0,
        plain_flags(flags),
    ensures
        run_parse_spec(pattern, flags) == (ParseOutcome {
            result: Ok(literal_tree(pattern)),
            flags,
        }),
{
    assert(!is_escaped(pattern[0]));
    assert(scan_modifier_blocks(pattern, Seq::empty()) == (pattern, Seq::<char>::empty()));
    let prelude = parse_inline_modifiers_spec(pattern, flags);
    assert(prelude.rest == pattern);
    assert(prelude.flags == flags);
    assert(prelude.result is Ok);
    lemma_parse_literal_items(pattern, 0, 0, Seq::empty());
    assert(pattern.skip(0) =~= pattern);
    assert(Seq::<NodeView>::empty() + literal_items(pattern).skip(0) =~= literal_items(pattern));
    assert(parse_expression_spec(pattern, 0) == done(
        literal_tree(pattern),
        Seq::<char>::empty(),
        0,
    ));
    assert(parse_whole_spec(pattern) == Ok::<NodeView, crate::node::ParserErrorView>(
        literal_tree(pattern),
    ));
}

/// The graph that the first `k` characters of a literal pattern compile to:
/// a chain of `k` edges, one for each character.
pub open spec fn chain_graph(pattern: Seq<char>, k: nat) -> GraphView {
    GraphView {
        out: Seq::new(
            k + 1,
            |s: int|
                if s < k {
                    seq![s as usize]
                } else {
                    Seq::<usize>::empty()
                },
        ),
        edges: Seq::new(
            k,
            |e: int|
                EdgeView { label: NodeView::Character(letter(pattern, e)), end: (e + 1) as usize },
        ),
    }
}

/// The automaton of a literal pattern of `n` characters: the chain of its
/// characters from state 0 to state `n`, and one epsilon edge from there to
/// the accept state.
pub open spec fn literal_automaton(pattern: Seq<char>, flags: RegexFlags) -> Automaton {
    let n = pattern.len();
    Automaton {
        start: 0,
        accept: (n + 1) as usize,
        graph: GraphView {
            out: Seq::new(
                n + 2,
                |s: int|
                    if s <= n {
                        seq![s as usize]
                    } else {
                        Seq::<usize>::empty()
                    },
            ),
            edges: Seq::new(
                n + 1,
                |e: int|
                    if e < n {
                        EdgeView {
                            label: NodeView::Character(letter(pattern, e)),
                            end: (e + 1) as usize,
                        }
                    } else {
                        EdgeView { label: NodeView::Epsilon, end: (n + 1) as usize }
                    },
            ),
        },
        group_count: 0,
        flags,
    }
}

/// One more character adds one edge to the chain.
pub proof fn lemma_build_literal_item(pattern: Seq<char>, k: nat)
    requires
        k < pattern.len(),
        pattern.len() + 2 <= usize::MAX,
    ensures
        build_spec(chain_graph(pattern, k), literal_item(letter(pattern, k as int)), k as usize)
            == (Built {
            graph: chain_graph(pattern, k + 1),
            end: (k + 1) as usize,
        }),
{
    let graph = chain_graph(pattern, k);
    let c = letter(pattern, k as int);
    let node = literal_item(c);
    let label = NodeView::Character(c);
    let from = k as usize;
    let to = (k + 1) as usize;
    let longer = graph.add_state().add_edge(from, label, to);
    assert(graph.fresh() == to);
    assert(longer.edges =~= chain_graph(pattern, k + 1).edges);
    assert(longer.out =~= chain_graph(pattern, k + 1).out) by {
        assert forall|s: int| 0 <= s < longer.out.len() implies #[trigger] longer.out[s]
            =~= chain_graph(pattern, k + 1).out[s] by {
            if s == k {
                assert(graph.add_state().out[s] =~= Seq::<usize>::empty());
            }
        }
    }
    assert(leaf_spec(graph, label, from) == Built { graph: chain_graph(pattern, k + 1), end: to });
    assert(build_spec(graph, label, from) == leaf_spec(graph, label, from));
    assert(body_spec(graph, node, from) == build_spec(graph, label, from));
    assert(quantify_spec(graph, node, Quantifier::Absent, from) == body_spec(graph, node, from));
    assert(build_spec(graph, node, from) == quantify_spec(graph, node, Quantifier::Absent, from));
}

/// The characters from number `i` on extend the chain of the first `i` to
/// the chain of all.
pub proof fn lemma_sequence_literal(pattern: Seq<char>, i: nat)
    requires
        i <= pattern.len(),
        pattern.len() + 2 <= usize::MAX,
    ensures
        sequence_spec(chain_graph(pattern, i), literal_items(pattern), i, i as usize) == (Built {
            graph: chain_graph(pattern, pattern.len()),
            end: pattern.len() as usize,
        }),
    decreases pattern.len() - i,
{
    if i < pattern.len() {
        lemma_build_literal_item(pattern, i);
        lemma_sequence_literal(pattern, i + 1);
        assert(literal_items(pattern)[i as int] == literal_item(letter(pattern, i as int)));
    }
}

/// A list of trees without groups has no group.
pub proof fn lemma_group_span_all_zero(items: Seq<NodeView>)
    requires
        forall|i: int| 0 <= i < items.len() ==> group_span(#[trigger] items[i]) == 0,
    ensures
        group_span_all(items) == 0,
    decreases items.len(),
{
    if items.len() > 0 {
        lemma_group_span_all_zero(items.drop_last());
    }
}

/// A literal pattern compiles to the chain of its characters.
pub proof fn lemma_compile_literal(pattern: Seq<char>, flags: RegexFlags)
    requires
        pattern.len() + 2 <= usize::MAX,
    ensures
        compile_spec(literal_tree(pattern), flags) == literal_automaton(pattern, flags),
{
    let n = pattern.len();
    let tree = literal_tree(pattern);
    let items = literal_items(pattern);
    let first = GraphView::empty().add_state();
    assert(first.out =~= chain_graph(pattern, 0).out);
    assert(first.edges =~= chain_graph(pattern, 0).edges);
    lemma_sequence_literal(pattern, 0);
    assert(build_spec(first, tree, 0) == sequence_spec(first, items, 0, 0));
    let chain = chain_graph(pattern, n);
    let whole = chain.add_state().add_edge(n as usize, NodeView::Epsilon, (n + 1) as usize);
    let expected = literal_automaton(pattern, flags);
    assert(whole.edges =~= expected.graph.edges);
    assert(whole.out =~= expected.graph.out) by {
        assert forall|s: int| 0 <= s < whole.out.len() implies #[trigger] whole.out[s]
            =~= expected.graph.out[s] by {
            if s == n {
                assert(chain.add_state().out[s] =~= Seq::<usize>::empty());
            }
        }
    }
    assert forall|i: int| 0 <= i < items.len() implies group_span(#[trigger] items[i]) == 0 by {
        assert(group_span(NodeView::Character(letter(pattern, i))) == 0);
        assert(group_span(literal_item(letter(pattern, i))) == 0);
    }
    lemma_group_span_all_zero(items);
    assert(group_span(tree) == 0);
}

/// A plain character adds one state to a graph, whatever the graph.
pub proof fn lemma_literal_item_adds_a_state(graph: GraphView, c: char, from: usize)
    ensures
        build_spec(graph, literal_item(c), from).graph.out.len() == graph.out.len() + 1,
{
    let node = literal_item(c);
    let label = NodeView::Character(c);
    assert(leaf_spec(graph, label, from).graph.out.len() == graph.out.len() + 1);
    assert(build_spec(graph, label, from) == leaf_spec(graph, label, from));
    assert(body_spec(graph, node, from) == build_spec(graph, label, from));
    assert(quantify_spec(graph, node, Quantifier::Absent, from) == body_spec(graph, node, from));
    assert(build_spec(graph, node, from) == quantify_spec(graph, node, Quantifier::Absent, from));
}

/// The plain characters from number `i` on add one state each.
pub proof fn lemma_literal_items_add_states(
    graph: GraphView,
    pattern: Seq<char>,
    i: nat,
    from: usize,
)
    requires
        i <= pattern.len(),
    ensures
        sequence_spec(graph, literal_items(pattern), i, from).graph.out.len() == graph.out.len()
            + pattern.len() - i,
    decreases pattern.len() - i,
{
    if i < pattern.len() {
        let c = letter(pattern, i as int);
        assert(literal_items(pattern)[i as int] == literal_item(c));
        lemma_literal_item_adds_a_state(graph, c, from);
        let item = build_spec(graph, literal_item(c), from);
        lemma_literal_items_add_states(item.graph, pattern, i + 1, item.end);
    }
}

/// The automaton of a literal pattern has one state for each character and
/// two more.
pub proof fn lemma_literal_automaton_states(pattern: Seq<char>, flags: RegexFlags)
    ensures
        compile_spec(literal_tree(pattern), flags).graph.out.len() == pattern.len() + 2,
{
    let first = GraphView::empty().add_state();
    lemma_literal_items_add_states(first, pattern, 0, 0);
    assert(build_spec(first, literal_tree(pattern), 0) == sequence_spec(
        first,
        literal_items(pattern),
        0,
        0,
    ));
}

/// A pattern of plain characters always compiles: parsing it gives no
/// error.
pub proof fn lemma_literal_pattern_compiles(pattern: Seq<char>, flags: RegexFlags)
    requires
        is_literal(pattern),
        plain_flags(flags),
    ensures
        pattern_automaton(pattern, flags) is Ok,
{
    if pattern.len() == 0 {
        assert(pattern =~= Seq::<char>::empty());
    } else {
        lemma_parse_literal(pattern, flags);
    }
}

/// The automaton of a literal pattern under options that leave it as it is,
/// if its states can be numbered.
pub proof fn lemma_literal_pattern_automaton(pattern: Seq<char>, flags: RegexFlags)
    requires
        is_literal(pattern),
        pattern.len() > 0,
        plain_flags(flags),
        pattern_automaton(pattern, flags) matches Ok(automaton) ==> automaton.graph.out.len()
            <= usize::MAX,
    ensures
        pattern.len() + 2 <= usize::MAX,
        pattern_automaton(pattern, flags) == Ok::<Automaton, crate::node::ParserErrorView>(
            literal_automaton(pattern, flags),
        ),
{
    lemma_parse_literal(pattern, flags);
    lemma_literal_automaton_states(pattern, flags);
    lemma_compile_literal(pattern, flags);
}

/// A cursor of an automaton without groups.
pub open spec fn chain_cursor(position: usize) -> CursorView {
    CursorView { position, groups: Seq::empty() }
}

/// Whether the pattern from its character number `k` on stands in the text
/// at the place `at`.
pub open spec fn rest_occurs_at(pattern: Seq<char>, k: nat, text: Seq<char>, at: int) -> bool {
    &&& 0 <= at
    &&& at + (pattern.len() - k) <= text.len()
    &&& forall|j: int| k <= j < pattern.len() ==> text[at + j - k] == #[trigger] pattern[j]
}

/// Whether the pattern stands in the text at the place `at`.
pub open spec fn occurs_at(pattern: Seq<char>, text: Seq<char>, at: int) -> bool {
    &&& 0 <= at
    &&& at + pattern.len() <= text.len()
    &&& text.subrange(at, at + pattern.len()) == pattern
}

/// Whether the pattern stands somewhere in the text, as a contiguous part
/// of it.
pub open spec fn occurs(pattern: Seq<char>, text: Seq<char>) -> bool {
    exists|at: int| occurs_at(pattern, text, at)
}

/// A pattern stands at a place exactly when each of its characters does.
pub proof fn lemma_occurs_at(pattern: Seq<char>, text: Seq<char>, at: int)
    ensures
        occurs_at(pattern, text, at) <==> rest_occurs_at(pattern, 0, text, at),
{
    if 0 <= at && at + pattern.len() <= text.len() {
        let part = text.subrange(at, at + pattern.len());
        if rest_occurs_at(pattern, 0, text, at) {
            assert(part =~= pattern);
        }
        if part == pattern {
            assert forall|j: int| 0 <= j < pattern.len() implies text[at + j - 0]
                == #[trigger] pattern[j] by {
                assert(part[j] == text[at + j]);
            }
        }
    }
}

/// From a state of the chain, with no edge marked, the one edge that leaves
/// it becomes a thread.
pub proof fn lemma_expand_chain(
    pattern: Seq<char>,
    flags: RegexFlags,
    context: ContextView,
    state: nat,
    cursor: CursorView,
    threads: Seq<Thread>,
)
    requires
        state <= pattern.len(),
        pattern.len() + 2 <= usize::MAX,
    ensures
        expand_spec(
            literal_automaton(pattern, flags),
            context,
            state as usize,
            0,
            cursor,
            fresh_marks(literal_automaton(pattern, flags)),
            threads,
        ) == (Expansion {
            threads: threads.push(Thread { edge: state as usize, cursor }),
            visited: fresh_marks(literal_automaton(pattern, flags)).update(state as int, true),
        }),
{
    let automaton = literal_automaton(pattern, flags);
    let marks = fresh_marks(automaton);
    let marked = marks.update(state as int, true);
    lemma_unvisited_mark(marks, state as int);
    let e = automaton.graph.out[state as int][0];
    assert(e == state);
    let more = threads.push(Thread { edge: e, cursor });
    assert(expand_spec(automaton, context, state as usize, 1, cursor, marked, more) == Expansion {
        threads: more,
        visited: marked,
    });
}

/// One round on the chain, with the one thread that stands at edge `k`: at
/// the last edge it is a match; at an edge before, the thread moves on if
/// the text has the pattern's character, and is dropped if not.
pub proof fn lemma_level_chain(
    pattern: Seq<char>,
    flags: RegexFlags,
    text: Seq<char>,
    k: nat,
    position: usize,
)
    requires
        k <= pattern.len(),
        pattern.len() + 2 <= usize::MAX,
        position <= text.len() <= usize::MAX,
        plain_flags(flags),
    ensures
        run_level(
            literal_automaton(pattern, flags),
            search_context(literal_automaton(pattern, flags), text),
            seq![Thread { edge: k as usize, cursor: chain_cursor(position) }],
            0,
            fresh_marks(literal_automaton(pattern, flags)),
            Seq::empty(),
        ) == (if k == pattern.len() {
            Level { frontier: Seq::empty(), found: Some(chain_cursor(position)) }
        } else if position < text.len() && text[position as int] == pattern[k as int] {
            Level {
                frontier: seq![
                    Thread { edge: (k + 1) as usize, cursor: chain_cursor((position + 1) as usize) },
                ],
                found: None,
            }
        } else {
            Level { frontier: Seq::empty(), found: None }
        }),
{
    let automaton = literal_automaton(pattern, flags);
    let context = search_context(automaton, text);
    let cursor = chain_cursor(position);
    let queue = seq![Thread { edge: k as usize, cursor }];
    let marks = fresh_marks(automaton);
    let none = Seq::<Thread>::empty();
    let edge = automaton.graph.edges[k as int];
    assert(queue[0] == Thread { edge: k as usize, cursor });
    if k == pattern.len() {
        assert(edge.label is Epsilon);
        assert(cursor_update(cursor, edge.label) == cursor);
    } else {
        assert(edge.label == NodeView::Character(letter(pattern, k as int)));
        if position < text.len() && text[position as int] == pattern[k as int] {
            let next = chain_cursor((position + 1) as usize);
            assert(cursor_update(cursor, edge.label) == next);
            lemma_expand_chain(pattern, flags, context, k + 1, next, none);
            let more = expand_spec(automaton, context, edge.end, 0, next, marks, none);
            assert(more.threads =~= seq![Thread { edge: (k + 1) as usize, cursor: next }]);
            assert(run_level(automaton, context, queue, 1, more.visited, more.threads) == Level {
                frontier: more.threads,
                found: None,
            });
        } else {
            assert(run_level(automaton, context, queue, 1, marks, none) == Level {
                frontier: none,
                found: None,
            });
        }
    }
}

/// The rounds on the chain from the thread at edge `k` on end in a match
/// exactly when the rest of the pattern stands in the text at the thread's
/// place; the match ends behind it.
pub proof fn lemma_levels_chain(
    pattern: Seq<char>,
    flags: RegexFlags,
    text: Seq<char>,
    k: nat,
    position: usize,
)
    requires
        k <= pattern.len(),
        pattern.len() + 2 <= usize::MAX,
        position <= text.len() <= usize::MAX,
        plain_flags(flags),
    ensures
        run_levels(
            literal_automaton(pattern, flags),
            search_context(literal_automaton(pattern, flags), text),
            seq![Thread { edge: k as usize, cursor: chain_cursor(position) }],
            None,
        ) == (if rest_occurs_at(pattern, k, text, position as int) {
            Some(chain_cursor((position + pattern.len() - k) as usize))
        } else {
            None
        }),
    decreases pattern.len() - k,
{
    let automaton = literal_automaton(pattern, flags);
    let context = search_context(automaton, text);
    let queue = seq![Thread { edge: k as usize, cursor: chain_cursor(position) }];
    lemma_level_chain(pattern, flags, text, k, position);
    if k == pattern.len() {
    } else if position < text.len() && text[position as int] == pattern[k as int] {
        let next = (position + 1) as usize;
        lemma_levels_chain(pattern, flags, text, k + 1, next);
        let frontier = seq![Thread { edge: (k + 1) as usize, cursor: chain_cursor(next) }];
        assert(frontier[0].cursor.position == next);
        assert(queue[0].cursor.position == position);
        if rest_occurs_at(pattern, k + 1, text, next as int) {
            assert forall|j: int| k <= j < pattern.len() implies text[position + j - k]
                == #[trigger] pattern[j] by {
                if j > k {
                    assert(text[next + j - (k + 1)] == pattern[j]);
                }
            }
        }
        if rest_occurs_at(pattern, k, text, position as int) {
            assert forall|j: int| k + 1 <= j < pattern.len() implies text[next + j - (k + 1)]
                == #[trigger] pattern[j] by {
                assert(text[position + j - k] == pattern[j]);
            }
        }
    } else {
        if rest_occurs_at(pattern, k, text, position as int) {
            assert(text[position + k - k] == pattern[k as int]);
        }
    }
}

/// On the automaton of a literal pattern, the match that starts at a place
/// exists exactly when the pattern stands there, and it ends behind the
/// pattern.
pub proof fn lemma_simulate_literal(
    pattern: Seq<char>,
    flags: RegexFlags,
    text: Seq<char>,
    start: usize,
)
    requires
        pattern.len() + 2 <= usize::MAX,
        start <= text.len() <= usize::MAX,
        plain_flags(flags),
    ensures
        simulate(
            literal_automaton(pattern, flags),
            search_context(literal_automaton(pattern, flags), text),
            fresh_cursor(literal_automaton(pattern, flags), start),
        ) == (if occurs_at(pattern, text, start as int) {
            Some(chain_cursor((start + pattern.len()) as usize))
        } else {
            None
        }),
{
    let automaton = literal_automaton(pattern, flags);
    let context = search_context(automaton, text);
    let cursor = fresh_cursor(automaton, start);
    assert(cursor.groups =~= Seq::<Option<usize>>::empty());
    assert(cursor == chain_cursor(start));
    lemma_expand_chain(pattern, flags, context, 0, cursor, Seq::empty());
    let first = expand_spec(automaton, context, 0, 0, cursor, fresh_marks(automaton), Seq::empty());
    assert(first.threads =~= seq![Thread { edge: 0, cursor }]);
    lemma_levels_chain(pattern, flags, text, 0, start);
    lemma_occurs_at(pattern, text, start as int);
}

/// On the automaton of a literal pattern, a search from an offset on finds
/// a match exactly when the pattern stands in the text at or behind that
/// offset.
pub proof fn lemma_first_match_literal(
    pattern: Seq<char>,
    flags: RegexFlags,
    text: Seq<char>,
    from: usize,
)
    requires
        pattern.len() + 2 <= usize::MAX,
        text.len() <= usize::MAX,
        plain_flags(flags),
    ensures
        first_match(literal_automaton(pattern, flags), text, from) is Some <==> exists|at: int|
            from <= at && occurs_at(pattern, text, at),
    decreases text.len() - from,
{
    let automaton = literal_automaton(pattern, flags);
    if from <= text.len() {
        lemma_simulate_literal(pattern, flags, text, from);
        if occurs_at(pattern, text, from as int) {
        } else if from < text.len() {
            lemma_first_match_literal(pattern, flags, text, (from + 1) as usize);
            if first_match(automaton, text, from) is Some {
                let at = choose|at: int| from + 1 <= at && occurs_at(pattern, text, at);
                assert(from <= at && occurs_at(pattern, text, at));
            }
            if exists|at: int| from <= at && occurs_at(pattern, text, at) {
                let at = choose|at: int| from <= at && occurs_at(pattern, text, at);
                assert(from + 1 <= at && occurs_at(pattern, text, at));
            }
        } else {
            if exists|at: int| from <= at && occurs_at(pattern, text, at) {
                let at = choose|at: int| from <= at && occurs_at(pattern, text, at);
                assert(at == from);
            }
        }
    } else {
        if exists|at: int| from <= at && occurs_at(pattern, text, at) {
            let at = choose|at: int| from <= at && occurs_at(pattern, text, at);
            assert(false);
        }
    }
}

/// The automaton of the empty pattern: an edge that passes at the start of
/// the text, then the epsilon edge to the accept state.
pub open spec fn empty_automaton(flags: RegexFlags) -> Automaton {
    Automaton {
        start: 0,
        accept: 2,
        graph: GraphView {
            out: seq![seq![0usize], seq![1usize], Seq::<usize>::empty()],
            edges: seq![
                EdgeView { label: NodeView::EmptyString, end: 1 },
                EdgeView { label: NodeView::Epsilon, end: 2 },
            ],
        },
        group_count: 0,
        flags,
    }
}

/// The empty pattern compiles to [`empty_automaton`], whatever the options.
pub proof fn lemma_empty_pattern_automaton(flags: RegexFlags)
    ensures
        pattern_automaton(Seq::<char>::empty(), flags) == Ok::<
            Automaton,
            crate::node::ParserErrorView,
        >(empty_automaton(flags)),
{
    let first = GraphView::empty().add_state();
    let body = leaf_spec(first, NodeView::EmptyString, 0);
    assert(build_spec(first, NodeView::EmptyString, 0) == body);
    let whole = body.graph.add_state().add_edge(body.end, NodeView::Epsilon, 2);
    let expected = empty_automaton(flags);
    assert(whole.edges =~= expected.graph.edges);
    assert(whole.out =~= expected.graph.out) by {
        assert(whole.out.len() == 3);
        assert(whole.out[0] =~= expected.graph.out[0]);
        assert(whole.out[1] =~= expected.graph.out[1]);
        assert(whole.out[2] =~= expected.graph.out[2]);
    }
    assert(group_span(NodeView::EmptyString) == 0);
}

/// The empty pattern matches at the start of every text.
pub proof fn lemma_empty_pattern_matches(flags: RegexFlags, text: Seq<char>)
    ensures
        first_match(empty_automaton(flags), text, 0) is Some,
{
    let automaton = empty_automaton(flags);
    let context = search_context(automaton, text);
    let cursor = fresh_cursor(automaton, 0);
    let marks = fresh_marks(automaton);
    let none = Seq::<Thread>::empty();
    assert(automaton.graph.out[0][0] == 0);
    assert(automaton.graph.out[1][0] == 1);
    let once = marks.update(0, true);
    let twice = once.update(1, true);
    lemma_unvisited_mark(marks, 0);
    lemma_unvisited_mark(once, 1);
    assert(cursor_update(cursor, NodeView::EmptyString) == cursor);
    let reached = seq![Thread { edge: 1, cursor }];
    assert(none.push(Thread { edge: 1, cursor }) =~= reached);
    assert(expand_spec(automaton, context, 1, 1, cursor, twice, reached) == Expansion {
        threads: reached,
        visited: twice,
    });
    assert(expand_spec(automaton, context, 1, 0, cursor, once, none) == Expansion {
        threads: reached,
        visited: twice,
    });
    assert(expand_spec(automaton, context, 0, 1, cursor, twice, reached) == Expansion {
        threads: reached,
        visited: twice,
    });
    assert(expand_spec(automaton, context, 0, 0, cursor, marks, none) == Expansion {
        threads: reached,
        visited: twice,
    });
    assert(reached[0] == Thread { edge: 1, cursor });
    assert(cursor_update(cursor, NodeView::Epsilon) == cursor);
    assert(run_level(automaton, context, reached, 0, marks, none) == Level {
        frontier: none,
        found: Some(cursor),
    });
    assert(run_levels(automaton, context, reached, None) == Some(cursor));
    assert(simulate(automaton, context, cursor) == Some(cursor));
}

/// A pattern of plain characters matches a text exactly when it occurs in
/// the text as a contiguous part. `automaton` is the automaton of the
/// pattern, as [`crate::fsm::RegexNFA::new`] returns it, and
/// [`crate::fsm::RegexNFA::is_match`] says whether a first match exists in
/// the text. The options must leave the pattern as it is: case counts, and
/// blanks are not dropped. The automaton is well-formed, as every automaton
/// that is built is, and the places of the text can be numbered, as those of
/// every text that is searched can.
pub proof fn lemma_literal_pattern_matches_where_it_occurs(
    pattern: Seq<char>,
    flags: RegexFlags,
    text: Seq<char>,
    automaton: Automaton,
)
    requires
        is_literal(pattern),
        plain_flags(flags),
        pattern_automaton(pattern, flags) == Ok::<Automaton, crate::node::ParserErrorView>(
            automaton,
        ),
        automaton.wf(),
        text.len() <= usize::MAX,
    ensures
        first_match(automaton, text, 0) is Some <==> occurs(pattern, text),
{
    if pattern.len() == 0 {
        assert(pattern =~= Seq::<char>::empty());
        lemma_empty_pattern_automaton(flags);
        lemma_empty_pattern_matches(flags, text);
        assert(text.subrange(0, 0) =~= pattern);
        assert(occurs_at(pattern, text, 0));
    } else {
        lemma_literal_pattern_automaton(pattern, flags);
        lemma_first_match_literal(pattern, flags, text, 0);
        if occurs(pattern, text) {
            let at = choose|at: int| occurs_at(pattern, text, at);
            assert(0 <= at && occurs_at(pattern, text, at));
        }
    }
}

/// With no option set, a literal pattern is left as it is.
pub proof fn lemma_no_flag_is_plain()
    ensures
        plain_flags(RegexFlags::spec_no_flag()),
{
    crate::utils::lemma_no_flag_is_empty();
}

} // verus!
