//! What holds of every search: each match lies in the text, successive
//! matches do not overlap, and group 0 is the text of the span. All of it is
//! proved of the mathematical definitions that the engine computes.

use vstd::prelude::*;
use crate::engine::{
    expand_spec, first_match, fresh_cursor, fresh_marks, lemma_unvisited_mark, level_position,
    passes, run_level, run_levels, scan_step, search_context, simulate, thread_ok, threads_ok,
    unvisited, ScanView, Thread,
};
use crate::fsm::Automaton;
use crate::matching::{consumes, cursor_update, group_text, ContextView, CursorView};

verus! {

/// Expanding a state marks edges and never unmarks one, keeps the threads it
/// was given, and adds only threads of the round: at the cursor's position,
/// with the automaton's slots, on an edge that consumes or leads to the
/// accept state.
pub proof fn lemma_expand(
    automaton: Automaton,
    context: ContextView,
    state: usize,
    k: nat,
    cursor: CursorView,
    visited: Seq<bool>,
    threads: Seq<Thread>,
)
    requires
        automaton.wf(),
        visited.len() == automaton.graph.edges.len(),
        cursor.groups.len() == 2 * automaton.group_count,
        threads_ok(automaton, threads, cursor.position),
    ensures
        expand_spec(automaton, context, state, k, cursor, visited, threads).visited.len()
            == visited.len(),
        unvisited(expand_spec(automaton, context, state, k, cursor, visited, threads).visited)
            <= unvisited(visited),
        threads_ok(
            automaton,
            expand_spec(automaton, context, state, k, cursor, visited, threads).threads,
            cursor.position,
        ),
        expand_spec(automaton, context, state, k, cursor, visited, threads).threads.len()
            >= threads.len(),
    decreases unvisited(visited),
        (if state < automaton.graph.out.len() {
            automaton.graph.out[state as int].len() - k
        } else {
            0
        }),
{
    if state >= automaton.graph.out.len() || k >= automaton.graph.out[state as int].len() {
    } else {
        let e = automaton.graph.out[state as int][k as int];
        assert(e < automaton.graph.edges.len());
        if visited[e as int] {
            lemma_expand(automaton, context, state, k + 1, cursor, visited, threads);
        } else {
            lemma_unvisited_mark(visited, e as int);
            let marked = visited.update(e as int, true);
            let edge = automaton.graph.edges[e as int];
            if consumes(edge.label) || (passes(edge.label, cursor, context) && edge.end
                == automaton.accept) {
                let more = threads.push(Thread { edge: e, cursor });
                assert(threads_ok(automaton, more, cursor.position)) by {
                    assert forall|i: int| 0 <= i < more.len() implies thread_ok(
                        automaton,
                        #[trigger] more[i],
                        cursor.position,
                    ) by {
                        if i < threads.len() {
                            assert(more[i] == threads[i]);
                        }
                    }
                }
                lemma_expand(automaton, context, state, k + 1, cursor, marked, more);
            } else if !passes(edge.label, cursor, context) {
                lemma_expand(automaton, context, state, k + 1, cursor, marked, threads);
            } else {
                let next = cursor_update(cursor, edge.label);
                lemma_expand(automaton, context, edge.end, 0, next, marked, threads);
                let inner = expand_spec(automaton, context, edge.end, 0, next, marked, threads);
                lemma_expand(
                    automaton,
                    context,
                    state,
                    k + 1,
                    cursor,
                    inner.visited,
                    inner.threads,
                );
            }
        }
    }
}

/// Whether a cursor is one that a search from `start` can have reached: it
/// lies between `start` and the end of the text and has the automaton's
/// slots.
pub open spec fn reached(
    automaton: Automaton,
    context: ContextView,
    start: usize,
    cursor: CursorView,
) -> bool {
    &&& start <= cursor.position <= context.text.len()
    &&& cursor.groups.len() == 2 * automaton.group_count
}

/// A round whose threads stand at `position` leaves threads one character
/// further on, and only if the text has a character there; a match that it
/// finds ends at `position` or one character further on, within the text.
pub proof fn lemma_run_level(
    automaton: Automaton,
    context: ContextView,
    queue: Seq<Thread>,
    i: nat,
    visited: Seq<bool>,
    frontier: Seq<Thread>,
    position: usize,
)
    requires
        automaton.wf(),
        context.text.len() <= usize::MAX,
        position <= context.text.len(),
        threads_ok(automaton, queue, position),
        visited.len() == automaton.graph.edges.len(),
        frontier.len() > 0 ==> position < context.text.len(),
        position < usize::MAX ==> threads_ok(automaton, frontier, (position + 1) as usize),
    ensures
        run_level(automaton, context, queue, i, visited, frontier).frontier.len() > 0 ==> position
            < context.text.len(),
        position < usize::MAX ==> threads_ok(
            automaton,
            run_level(automaton, context, queue, i, visited, frontier).frontier,
            (position + 1) as usize,
        ),
        run_level(automaton, context, queue, i, visited, frontier).found matches Some(end)
            ==> reached(automaton, context, position, end),
        queue.len() <= i ==> run_level(automaton, context, queue, i, visited, frontier).frontier
            == frontier,
    decreases queue.len() - i,
{
    if i >= queue.len() {
    } else {
        let thread = queue[i as int];
        assert(thread_ok(automaton, thread, position));
        let edge = automaton.graph.edges[thread.edge as int];
        if passes(edge.label, thread.cursor, context) {
            let next = cursor_update(thread.cursor, edge.label);
            if edge.end == automaton.accept {
            } else {
                assert(consumes(edge.label));
                assert(position < context.text.len());
                lemma_expand(automaton, context, edge.end, 0, next, visited, frontier);
                let more = expand_spec(automaton, context, edge.end, 0, next, visited, frontier);
                lemma_run_level(
                    automaton,
                    context,
                    queue,
                    i + 1,
                    more.visited,
                    more.threads,
                    position,
                );
            }
        } else {
            lemma_run_level(automaton, context, queue, i + 1, visited, frontier, position);
        }
    }
}

/// The rounds from one at `position` on give a match that a search from
/// `start` can have reached, if the best match so far is one.
pub proof fn lemma_run_levels(
    automaton: Automaton,
    context: ContextView,
    queue: Seq<Thread>,
    best: Option<CursorView>,
    start: usize,
    position: usize,
)
    requires
        automaton.wf(),
        context.text.len() <= usize::MAX,
        start <= position <= context.text.len(),
        threads_ok(automaton, queue, position),
        best matches Some(end) ==> reached(automaton, context, start, end),
    ensures
        run_levels(automaton, context, queue, best) matches Some(end) ==> reached(
            automaton,
            context,
            start,
            end,
        ),
    decreases context.text.len() - position,
{
    let marks = fresh_marks(automaton);
    let none = Seq::<Thread>::empty();
    lemma_run_level(automaton, context, queue, 0, marks, none, position);
    let level = run_level(automaton, context, queue, 0, marks, none);
    let better = if level.found is Some {
        level.found
    } else {
        best
    };
    if level.frontier.len() == 0 {
    } else if level_position(queue) < level_position(level.frontier) <= context.text.len() {
        assert(thread_ok(automaton, level.frontier[0], (position + 1) as usize));
        lemma_run_levels(
            automaton,
            context,
            level.frontier,
            better,
            start,
            (position + 1) as usize,
        );
    } else {
    }
}

/// A match that starts at a cursor in the text ends in the text, not before
/// the cursor, and its cursor has as many slots.
pub proof fn lemma_simulate_bounds(automaton: Automaton, context: ContextView, cursor: CursorView)
    requires
        automaton.wf(),
        context.text.len() <= usize::MAX,
        cursor.position <= context.text.len(),
        cursor.groups.len() == 2 * automaton.group_count,
    ensures
        simulate(automaton, context, cursor) matches Some(end) ==> reached(
            automaton,
            context,
            cursor.position,
            end,
        ),
{
    let marks = fresh_marks(automaton);
    let none = Seq::<Thread>::empty();
    lemma_expand(automaton, context, automaton.start, 0, cursor, marks, none);
    let first = expand_spec(automaton, context, automaton.start, 0, cursor, marks, none);
    lemma_run_levels(automaton, context, first.threads, None, cursor.position, cursor.position);
}

/// The first match from an offset on starts at or behind that offset and
/// lies in the text; it is the match that the engine finds at its start.
pub proof fn lemma_first_match(automaton: Automaton, text: Seq<char>, from: usize)
    requires
        automaton.wf(),
        text.len() <= usize::MAX,
    ensures
        first_match(automaton, text, from) matches Some((start, end)) ==> from <= start
            <= end.position <= text.len() && end.groups.len() == 2 * automaton.group_count
            && simulate(
            automaton,
            search_context(automaton, text),
            fresh_cursor(automaton, start),
        ) == Some(end),
    decreases text.len() - from,
{
    if from <= text.len() {
        let context = search_context(automaton, text);
        lemma_simulate_bounds(automaton, context, fresh_cursor(automaton, from));
        if simulate(automaton, context, fresh_cursor(automaton, from)) is None && from
            < text.len() {
            lemma_first_match(automaton, text, (from + 1) as usize);
        }
    }
}

/// Whether a search is one that [`crate::fsm::RegexNFA::find_iter`] and
/// [`crate::engine::RegexNFAMatches::next`] can have led to.
pub open spec fn valid_scan(scan: ScanView) -> bool {
    &&& scan.automaton.wf()
    &&& scan.text.len() <= usize::MAX
    &&& scan.start <= scan.text.len()
}

/// A step of a search leaves a search that is valid again, over the same
/// text with the same automaton.
pub proof fn lemma_scan_step_valid(scan: ScanView)
    requires
        valid_scan(scan),
    ensures
        valid_scan(scan_step(scan).1),
        scan_step(scan).1.text == scan.text,
        scan_step(scan).1.automaton == scan.automaton,
        scan_step(scan).0 is None ==> scan_step(scan).1.finished,
{
    lemma_first_match(scan.automaton, scan.text, scan.start);
}

/// Every match lies in the text: its start is not behind its end, and its
/// end is not behind the end of the text. It starts no earlier than the
/// search stood.
pub proof fn lemma_match_lies_in_text(scan: ScanView)
    requires
        valid_scan(scan),
    ensures
        scan_step(scan).0 matches Some(found) ==> 0 <= found.start <= found.end
            <= found.text.len() && found.text == scan.text && scan.start <= found.start,
{
    lemma_first_match(scan.automaton, scan.text, scan.start);
}

/// Successive matches do not overlap, and each starts behind the start of
/// the one before: of two matches that a search yields one after the other,
/// the second starts at or behind the end of the first, and strictly behind
/// its start.
pub proof fn lemma_successive_matches(scan: ScanView)
    requires
        valid_scan(scan),
    ensures
        scan_step(scan).0 matches Some(first) ==> (scan_step(scan_step(scan).1).0 matches Some(
            second,
        ) ==> first.end <= second.start && first.start < second.start),
{
    lemma_first_match(scan.automaton, scan.text, scan.start);
    lemma_scan_step_valid(scan);
    let after = scan_step(scan).1;
    lemma_first_match(after.automaton, after.text, after.start);
}

/// Group 0 of every match is the text between its start and its end, as it
/// stands.
pub proof fn lemma_group_zero(scan: ScanView)
    requires
        valid_scan(scan),
    ensures
        scan_step(scan).0 matches Some(found) ==> group_text(found, 0) == Some(
            scan.text.subrange(found.start as int, found.end as int),
        ),
{
    lemma_match_lies_in_text(scan);
}

} // verus!
