//! What a match means: a walk through the automaton from the start state to
//! the accept state, along edges whose labels let the cursor pass. Every
//! match that the engine finds is the end of such a walk.

use vstd::prelude::*;
use crate::engine::{
    expand_spec, first_match, fresh_cursor, fresh_marks, passes, run_level, run_levels,
    scan_step, search_context, simulate, ScanView, Thread,
};
use crate::coverage::{leads, lemma_simulate_finds, passes_at};
use crate::fsm::Automaton;
use crate::laws::{lemma_first_match, valid_scan};
use crate::matching::{cursor_update, increment_of, ContextView, CursorView};

verus! {

/// Whether a cursor at a state can take the edge: the edge leaves the state
/// and its label lets the cursor pass.
pub open spec fn can_take(
    automaton: Automaton,
    context: ContextView,
    state: usize,
    edge: usize,
    cursor: CursorView,
) -> bool {
    &&& state < automaton.graph.out.len()
    &&& automaton.graph.out[state as int].contains(edge)
    &&& edge < automaton.graph.edges.len()
    &&& passes(automaton.graph.edges[edge as int].label, cursor, context)
}

/// Where a walk along the edges of `path` ends, and with what cursor, if
/// each edge can be taken in its turn.
pub open spec fn walk(
    automaton: Automaton,
    context: ContextView,
    path: Seq<usize>,
    state: usize,
    cursor: CursorView,
) -> Option<(usize, CursorView)>
    decreases path.len(),
{
    if path.len() == 0 {
        Some((state, cursor))
    } else {
        match walk(automaton, context, path.drop_last(), state, cursor) {
            Some((before, at)) => if can_take(automaton, context, before, path.last(), at) {
                let edge = automaton.graph.edges[path.last() as int];
                Some((edge.end, cursor_update(at, edge.label)))
            } else {
                None
            },
            None => None,
        }
    }
}

/// Whether some walk from the start state with the cursor `from` ends at
/// the state with the cursor `to`.
pub open spec fn reaches(
    automaton: Automaton,
    context: ContextView,
    from: CursorView,
    state: usize,
    to: CursorView,
) -> bool {
    exists|path: Seq<usize>|
        walk(automaton, context, path, automaton.start, from) == Some((state, to))
}

/// Whether some walk from the start state with the cursor `from` ends at
/// the accept state with the cursor `to`: the text between the two cursors
/// is in the language of the automaton, and `to` holds what the groups on
/// the way recorded.
pub open spec fn accepts_between(
    automaton: Automaton,
    context: ContextView,
    from: CursorView,
    to: CursorView,
) -> bool {
    reaches(automaton, context, from, automaton.accept, to)
}

/// A walk can be extended by an edge that can be taken at its end.
pub proof fn lemma_reaches_further(
    automaton: Automaton,
    context: ContextView,
    from: CursorView,
    state: usize,
    at: CursorView,
    edge: usize,
)
    requires
        reaches(automaton, context, from, state, at),
        can_take(automaton, context, state, edge, at),
    ensures
        reaches(
            automaton,
            context,
            from,
            automaton.graph.edges[edge as int].end,
            cursor_update(at, automaton.graph.edges[edge as int].label),
        ),
{
    let path = choose|path: Seq<usize>|
        walk(automaton, context, path, automaton.start, from) == Some((state, at));
    let longer = path.push(edge);
    assert(longer.drop_last() =~= path);
    assert(walk(automaton, context, longer, automaton.start, from) == Some(
        (
            automaton.graph.edges[edge as int].end,
            cursor_update(at, automaton.graph.edges[edge as int].label),
        ),
    ));
}

/// Whether a thread stands where a walk from `from` can have come: at an
/// edge that leaves a state which the walk reaches with the thread's cursor.
pub open spec fn thread_reached(
    automaton: Automaton,
    context: ContextView,
    from: CursorView,
    thread: Thread,
) -> bool {
    exists|state: usize|
        reaches(automaton, context, from, state, thread.cursor) && state
            < automaton.graph.out.len() && #[trigger] automaton.graph.out[state as int].contains(
            thread.edge,
        )
}

pub open spec fn threads_reached(
    automaton: Automaton,
    context: ContextView,
    from: CursorView,
    threads: Seq<Thread>,
) -> bool {
    forall|i: int|
        0 <= i < threads.len() ==> thread_reached(automaton, context, from, #[trigger] threads[i])
}

/// Expanding a state that a walk reaches adds only threads that stand where
/// a walk can have come.
pub proof fn lemma_expand_reached(
    automaton: Automaton,
    context: ContextView,
    from: CursorView,
    state: usize,
    k: nat,
    cursor: CursorView,
    visited: Seq<bool>,
    threads: Seq<Thread>,
)
    requires
        reaches(automaton, context, from, state, cursor),
        threads_reached(automaton, context, from, threads),
    ensures
        threads_reached(
            automaton,
            context,
            from,
            expand_spec(automaton, context, state, k, cursor, visited, threads).threads,
        ),
    decreases crate::engine::unvisited(visited),
        (if state < automaton.graph.out.len() {
            automaton.graph.out[state as int].len() - k
        } else {
            0
        }),
{
    if state >= automaton.graph.out.len() || k >= automaton.graph.out[state as int].len() {
    } else {
        let e = automaton.graph.out[state as int][k as int];
        assert(automaton.graph.out[state as int].contains(e));
        if e >= visited.len() || e >= automaton.graph.edges.len() || visited[e as int] {
            lemma_expand_reached(automaton, context, from, state, k + 1, cursor, visited, threads);
        } else {
            let marked = visited.update(e as int, true);
            let edge = automaton.graph.edges[e as int];
            if crate::engine::unvisited(marked) >= crate::engine::unvisited(visited) {
            } else if crate::matching::consumes(edge.label) || (passes(
                edge.label,
                cursor,
                context,
            ) && edge.end == automaton.accept) {
                let more = threads.push(Thread { edge: e, cursor });
                assert forall|i: int| 0 <= i < more.len() implies thread_reached(
                    automaton,
                    context,
                    from,
                    #[trigger] more[i],
                ) by {
                    if i < threads.len() {
                        assert(more[i] == threads[i]);
                    } else {
                        assert(automaton.graph.out[state as int].contains(more[i].edge));
                    }
                }
                lemma_expand_reached(automaton, context, from, state, k + 1, cursor, marked, more);
            } else if !passes(edge.label, cursor, context) {
                lemma_expand_reached(
                    automaton,
                    context,
                    from,
                    state,
                    k + 1,
                    cursor,
                    marked,
                    threads,
                );
            } else {
                let next = cursor_update(cursor, edge.label);
                lemma_reaches_further(automaton, context, from, state, cursor, e);
                lemma_expand_reached(automaton, context, from, edge.end, 0, next, marked, threads);
                let inner = expand_spec(automaton, context, edge.end, 0, next, marked, threads);
                if crate::engine::unvisited(inner.visited) < crate::engine::unvisited(visited) {
                    lemma_expand_reached(
                        automaton,
                        context,
                        from,
                        state,
                        k + 1,
                        cursor,
                        inner.visited,
                        inner.threads,
                    );
                }
            }
        }
    }
}

/// A round of threads that stand where a walk can have come leaves such
/// threads, and a match that it finds is the end of a walk to the accept
/// state.
pub proof fn lemma_run_level_reached(
    automaton: Automaton,
    context: ContextView,
    from: CursorView,
    queue: Seq<Thread>,
    i: nat,
    visited: Seq<bool>,
    frontier: Seq<Thread>,
)
    requires
        threads_reached(automaton, context, from, queue),
        threads_reached(automaton, context, from, frontier),
    ensures
        threads_reached(
            automaton,
            context,
            from,
            run_level(automaton, context, queue, i, visited, frontier).frontier,
        ),
        run_level(automaton, context, queue, i, visited, frontier).found matches Some(end)
            ==> accepts_between(automaton, context, from, end),
    decreases queue.len() - i,
{
    if i >= queue.len() {
    } else {
        let thread = queue[i as int];
        if thread.edge >= automaton.graph.edges.len() {
            lemma_run_level_reached(automaton, context, from, queue, i + 1, visited, frontier);
        } else {
            let edge = automaton.graph.edges[thread.edge as int];
            if passes(edge.label, thread.cursor, context) {
                assert(thread_reached(automaton, context, from, thread));
                let state = choose|state: usize|
                    reaches(automaton, context, from, state, thread.cursor) && state
                        < automaton.graph.out.len()
                        && #[trigger] automaton.graph.out[state as int].contains(thread.edge);
                lemma_reaches_further(automaton, context, from, state, thread.cursor, thread.edge);
                let next = cursor_update(thread.cursor, edge.label);
                if edge.end == automaton.accept {
                } else {
                    lemma_expand_reached(
                        automaton,
                        context,
                        from,
                        edge.end,
                        0,
                        next,
                        visited,
                        frontier,
                    );
                    let more = expand_spec(
                        automaton,
                        context,
                        edge.end,
                        0,
                        next,
                        visited,
                        frontier,
                    );
                    lemma_run_level_reached(
                        automaton,
                        context,
                        from,
                        queue,
                        i + 1,
                        more.visited,
                        more.threads,
                    );
                }
            } else {
                lemma_run_level_reached(automaton, context, from, queue, i + 1, visited, frontier);
            }
        }
    }
}

/// The rounds give the end of a walk to the accept state, if the best match
/// so far is one.
pub proof fn lemma_run_levels_reached(
    automaton: Automaton,
    context: ContextView,
    from: CursorView,
    queue: Seq<Thread>,
    best: Option<CursorView>,
)
    requires
        threads_reached(automaton, context, from, queue),
        best matches Some(end) ==> accepts_between(automaton, context, from, end),
    ensures
        run_levels(automaton, context, queue, best) matches Some(end) ==> accepts_between(
            automaton,
            context,
            from,
            end,
        ),
    decreases context.text.len() - crate::engine::level_position(queue),
{
    let marks = fresh_marks(automaton);
    let none = Seq::<Thread>::empty();
    lemma_run_level_reached(automaton, context, from, queue, 0, marks, none);
    let level = run_level(automaton, context, queue, 0, marks, none);
    let better = if level.found is Some {
        level.found
    } else {
        best
    };
    if level.frontier.len() == 0 {
    } else if crate::engine::level_position(queue) < crate::engine::level_position(level.frontier)
        <= context.text.len() {
        lemma_run_levels_reached(automaton, context, from, level.frontier, better);
    }
}

/// Every match that the engine finds from a cursor is the end of a walk
/// from the start state to the accept state that begins with that cursor.
pub proof fn lemma_simulate_follows_a_walk(
    automaton: Automaton,
    context: ContextView,
    cursor: CursorView,
)
    ensures
        simulate(automaton, context, cursor) matches Some(end) ==> accepts_between(
            automaton,
            context,
            cursor,
            end,
        ),
{
    let marks = fresh_marks(automaton);
    let none = Seq::<Thread>::empty();
    assert(walk(automaton, context, Seq::<usize>::empty(), automaton.start, cursor) == Some(
        (automaton.start, cursor),
    ));
    assert(reaches(automaton, context, cursor, automaton.start, cursor));
    lemma_expand_reached(automaton, context, cursor, automaton.start, 0, cursor, marks, none);
    let first = expand_spec(automaton, context, automaton.start, 0, cursor, marks, none);
    lemma_run_levels_reached(automaton, context, cursor, first.threads, None);
}

/// Every match of a search is the end of a walk through the automaton: from
/// the start state, with a cursor at the start of the match that has
/// recorded nothing, to the accept state, with a cursor at the end of the
/// match that holds its captures.
pub proof fn lemma_match_follows_a_walk(scan: ScanView)
    requires
        valid_scan(scan),
    ensures
        scan_step(scan).0 matches Some(found) ==> accepts_between(
            scan.automaton,
            search_context(scan.automaton, scan.text),
            fresh_cursor(scan.automaton, found.start),
            CursorView { position: found.end, groups: found.captures },
        ),
{
    lemma_first_match(scan.automaton, scan.text, scan.start);
    if !scan.finished {
        match first_match(scan.automaton, scan.text, scan.start) {
            Some((start, end)) => {
                lemma_simulate_follows_a_walk(
                    scan.automaton,
                    search_context(scan.automaton, scan.text),
                    fresh_cursor(scan.automaton, start),
                );
            },
            None => {},
        }
    }
}

/// The position of a cursor after the edges of `path`, each passed in its
/// turn.
pub open spec fn position_after(automaton: Automaton, path: Seq<usize>, position: int) -> int
    decreases path.len(),
{
    if path.len() == 0 {
        position
    } else {
        position_after(
            automaton,
            path.skip(1),
            position + increment_of(automaton.graph.edges[path[0] as int].label),
        )
    }
}

/// A way that leads to a state can be extended by an edge that leaves the
/// state and can be passed at the position where the way ends.
pub proof fn lemma_leads_further(
    automaton: Automaton,
    context: ContextView,
    path: Seq<usize>,
    state: usize,
    position: usize,
    target: usize,
    e: usize,
)
    requires
        leads(automaton, context, path, state, position, target),
        target < automaton.graph.out.len(),
        automaton.graph.out[target as int].contains(e),
        e < automaton.graph.edges.len(),
        position_after(automaton, path, position as int) + increment_of(
            automaton.graph.edges[e as int].label,
        ) <= usize::MAX,
        passes_at(
            automaton.graph.edges[e as int].label,
            position_after(automaton, path, position as int) as usize,
            context,
        ),
    ensures
        leads(
            automaton,
            context,
            path.push(e),
            state,
            position,
            automaton.graph.edges[e as int].end,
        ),
        position_after(automaton, path.push(e), position as int) == position_after(
            automaton,
            path,
            position as int,
        ) + increment_of(automaton.graph.edges[e as int].label),
        position <= position_after(automaton, path, position as int),
    decreases path.len(),
{
    let longer = path.push(e);
    if path.len() == 0 {
        assert(longer.skip(1) =~= Seq::<usize>::empty());
        assert(longer[0] == e);
        assert(leads(
            automaton,
            context,
            longer.skip(1),
            automaton.graph.edges[e as int].end,
            (position + increment_of(automaton.graph.edges[e as int].label)) as usize,
            automaton.graph.edges[e as int].end,
        ));
        assert(position_after(
            automaton,
            longer.skip(1),
            position + increment_of(automaton.graph.edges[e as int].label),
        ) == position + increment_of(automaton.graph.edges[e as int].label));
    } else {
        let first = automaton.graph.edges[path[0] as int];
        let next = (position + increment_of(first.label)) as usize;
        lemma_leads_further(automaton, context, path.skip(1), first.end, next, target, e);
        assert(longer.skip(1) =~= path.skip(1).push(e));
        assert(longer[0] == path[0]);
    }
}

/// A walk is a way: what a walk with a cursor reaches, the edges of its
/// path lead to from the cursor's position, and the cursor ends where the
/// edges end.
pub proof fn lemma_walk_leads(
    automaton: Automaton,
    context: ContextView,
    path: Seq<usize>,
    state: usize,
    cursor: CursorView,
)
    requires
        context.text.len() <= usize::MAX,
        walk(automaton, context, path, state, cursor) is Some,
    ensures
        leads(
            automaton,
            context,
            path,
            state,
            cursor.position,
            walk(automaton, context, path, state, cursor)->Some_0.0,
        ),
        walk(automaton, context, path, state, cursor)->Some_0.1.position == position_after(
            automaton,
            path,
            cursor.position as int,
        ),
    decreases path.len(),
{
    if path.len() > 0 {
        let before = path.drop_last();
        lemma_walk_leads(automaton, context, before, state, cursor);
        let reached = walk(automaton, context, before, state, cursor)->Some_0;
        let e = path.last();
        let edge = automaton.graph.edges[e as int];
        assert(can_take(automaton, context, reached.0, e, reached.1));
        lemma_leads_further(automaton, context, before, state, cursor.position, reached.0, e);
        assert(before.push(e) =~= path);
    }
}

/// The engine misses no match: if some walk from the start state to the
/// accept state begins with the cursor, the engine finds a match from the
/// cursor.
pub proof fn lemma_simulate_misses_no_walk(
    automaton: Automaton,
    context: ContextView,
    cursor: CursorView,
    end: CursorView,
)
    requires
        automaton.wf(),
        context.text.len() <= usize::MAX,
        cursor.position <= context.text.len(),
        cursor.groups.len() == 2 * automaton.group_count,
        accepts_between(automaton, context, cursor, end),
    ensures
        simulate(automaton, context, cursor) is Some,
{
    let path = choose|path: Seq<usize>|
        walk(automaton, context, path, automaton.start, cursor) == Some((automaton.accept, end));
    lemma_walk_leads(automaton, context, path, automaton.start, cursor);
    lemma_simulate_finds(automaton, context, cursor, path);
}

/// The engine finds a match from a cursor exactly when some walk from the
/// start state to the accept state begins with that cursor.
pub proof fn lemma_simulate_decides_walks(
    automaton: Automaton,
    context: ContextView,
    cursor: CursorView,
)
    requires
        automaton.wf(),
        context.text.len() <= usize::MAX,
        cursor.position <= context.text.len(),
        cursor.groups.len() == 2 * automaton.group_count,
    ensures
        simulate(automaton, context, cursor) is Some <==> exists|end: CursorView|
            accepts_between(automaton, context, cursor, end),
{
    lemma_simulate_follows_a_walk(automaton, context, cursor);
    if simulate(automaton, context, cursor) is Some {
        assert(accepts_between(
            automaton,
            context,
            cursor,
            simulate(automaton, context, cursor)->Some_0,
        ));
    }
    if exists|end: CursorView| accepts_between(automaton, context, cursor, end) {
        let end = choose|end: CursorView| accepts_between(automaton, context, cursor, end);
        lemma_simulate_misses_no_walk(automaton, context, cursor, end);
    }
}

/// Whether the text has a match at or behind the offset `from`, as walks
/// through the automaton define it: at some offset from there on a walk
/// begins that leads from the start state to the accept state.
pub open spec fn walk_begins(automaton: Automaton, text: Seq<char>, from: int) -> bool {
    exists|start: usize, end: CursorView|
        from <= start <= text.len() && #[trigger] accepts_between(
            automaton,
            search_context(automaton, text),
            fresh_cursor(automaton, start),
            end,
        )
}

/// A search finds a match exactly when the text has one: a walk from the
/// start state to the accept state begins at some offset of the text that
/// the search has not passed.
pub proof fn lemma_first_match_decides_walks(automaton: Automaton, text: Seq<char>, from: usize)
    requires
        automaton.wf(),
        text.len() <= usize::MAX,
    ensures
        first_match(automaton, text, from) is Some <==> walk_begins(automaton, text, from as int),
    decreases text.len() - from,
{
    let context = search_context(automaton, text);
    if from <= text.len() {
        let cursor = fresh_cursor(automaton, from);
        lemma_simulate_decides_walks(automaton, context, cursor);
        if simulate(automaton, context, cursor) is Some {
            let end = simulate(automaton, context, cursor)->Some_0;
            lemma_simulate_follows_a_walk(automaton, context, cursor);
            assert(accepts_between(automaton, context, fresh_cursor(automaton, from), end));
        } else if from < text.len() {
            lemma_first_match_decides_walks(automaton, text, (from + 1) as usize);
            if walk_begins(automaton, text, from + 1) {
                let (start, end) = choose|start: usize, end: CursorView|
                    from + 1 <= start <= text.len() && #[trigger] accepts_between(
                        automaton,
                        context,
                        fresh_cursor(automaton, start),
                        end,
                    );
                assert(from <= start <= text.len() && accepts_between(
                    automaton,
                    context,
                    fresh_cursor(automaton, start),
                    end,
                ));
            }
            if walk_begins(automaton, text, from as int) {
                let (start, end) = choose|start: usize, end: CursorView|
                    from <= start <= text.len() && #[trigger] accepts_between(
                        automaton,
                        context,
                        fresh_cursor(automaton, start),
                        end,
                    );
                assert(start != from);
                assert(from + 1 <= start <= text.len() && accepts_between(
                    automaton,
                    context,
                    fresh_cursor(automaton, start),
                    end,
                ));
            }
        } else {
            if walk_begins(automaton, text, from as int) {
                let (start, end) = choose|start: usize, end: CursorView|
                    from <= start <= text.len() && #[trigger] accepts_between(
                        automaton,
                        context,
                        fresh_cursor(automaton, start),
                        end,
                    );
                assert(start == from);
            }
        }
    } else {
        if walk_begins(automaton, text, from as int) {
            let (start, end) = choose|start: usize, end: CursorView|
                from <= start <= text.len() && #[trigger] accepts_between(
                    automaton,
                    context,
                    fresh_cursor(automaton, start),
                    end,
                );
            assert(false);
        }
    }
}

} // verus!
