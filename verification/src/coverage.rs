//! Why the engine misses no match: whatever a walk through the automaton
//! can reach in a round, the round's marks and threads account for.

use vstd::prelude::*;
use crate::engine::{
    expand_spec, fresh_marks, lemma_unvisited_mark, level_position, passes, run_level,
    run_levels, simulate, thread_ok, threads_ok, unvisited, Thread,
};
use crate::fsm::Automaton;
use crate::laws::{lemma_expand, lemma_run_level};
use crate::matching::{consumes, cursor_update, increment_of, label_accepts, ContextView, CursorView};

verus! {

/// Whether a label lets a cursor at the position through: the test depends
/// on the position alone, not on what the cursor has recorded.
pub open spec fn passes_at(label: crate::node::NodeView, position: usize, context: ContextView) -> bool {
    label_accepts(label, position, context) || label is Epsilon
}

/// Whether an edge becomes a thread when a round at the position comes to
/// it: it consumes, or it can be passed and leads to the accept state.
pub open spec fn becomes_thread(
    automaton: Automaton,
    context: ContextView,
    position: usize,
    e: int,
) -> bool {
    let edge = automaton.graph.edges[e];
    consumes(edge.label) || (passes_at(edge.label, position, context) && edge.end
        == automaton.accept)
}

/// Whether every edge that leaves the state is marked.
pub open spec fn all_marked(automaton: Automaton, visited: Seq<bool>, state: usize) -> bool {
    &&& state < automaton.graph.out.len()
    &&& forall|k: int|
        0 <= k < automaton.graph.out[state as int].len() ==> visited[(
        #[trigger] automaton.graph.out[state as int][k]) as int]
}

/// Whether some thread stands at the edge.
pub open spec fn has_thread(threads: Seq<Thread>, e: int) -> bool {
    exists|i: int| 0 <= i < threads.len() && (#[trigger] threads[i]).edge == e
}

/// Whether a marked edge has had its due: if it becomes a thread, the
/// thread is there; if it is followed instead, all edges that leave its end
/// are marked as well, or its end is one of the states whose expansion is
/// under way.
pub open spec fn edge_done(
    automaton: Automaton,
    context: ContextView,
    position: usize,
    visited: Seq<bool>,
    threads: Seq<Thread>,
    pending: Set<usize>,
    e: int,
) -> bool {
    let edge = automaton.graph.edges[e];
    if becomes_thread(automaton, context, position, e) {
        has_thread(threads, e)
    } else if passes_at(edge.label, position, context) {
        pending.contains(edge.end) || all_marked(automaton, visited, edge.end)
    } else {
        true
    }
}

/// Whether every marked edge has had its due.
pub open spec fn closed_at(
    automaton: Automaton,
    context: ContextView,
    position: usize,
    visited: Seq<bool>,
    threads: Seq<Thread>,
    pending: Set<usize>,
) -> bool {
    forall|e: int|
        0 <= e < automaton.graph.edges.len() && #[trigger] visited[e] ==> edge_done(
            automaton,
            context,
            position,
            visited,
            threads,
            pending,
            e,
        )
}

/// Whether every mark of `before` is a mark of `after`.
pub open spec fn grows(before: Seq<bool>, after: Seq<bool>) -> bool {
    &&& before.len() == after.len()
    &&& forall|e: int| 0 <= e < before.len() && before[e] ==> #[trigger] after[e]
}

/// Whether the threads of `before` are the first threads of `after`.
pub open spec fn keeps(before: Seq<Thread>, after: Seq<Thread>) -> bool {
    &&& before.len() <= after.len()
    &&& forall|i: int| 0 <= i < before.len() ==> #[trigger] after[i] == before[i]
}

/// With more marks, no more edges are left unmarked.
pub proof fn lemma_unvisited_grows(before: Seq<bool>, after: Seq<bool>)
    requires
        grows(before, after),
    ensures
        unvisited(after) <= unvisited(before),
    decreases before.len(),
{
    if before.len() > 0 {
        assert(grows(before.drop_last(), after.drop_last())) by {
            assert forall|e: int|
                0 <= e < before.drop_last().len() && before.drop_last()[e] implies #[trigger] after.drop_last()[e] by {
                assert(before[e]);
                assert(after[e]);
            }
        }
        lemma_unvisited_grows(before.drop_last(), after.drop_last());
        if before.last() {
            assert(before[before.len() - 1]);
            assert(after[before.len() - 1]);
        }
    }
}

/// More marks, more threads and fewer states under way keep what was due
/// done, as long as the states no longer under way have all their edges
/// marked.
pub proof fn lemma_closed_carries(
    automaton: Automaton,
    context: ContextView,
    position: usize,
    visited: Seq<bool>,
    threads: Seq<Thread>,
    pending: Set<usize>,
    more_visited: Seq<bool>,
    more_threads: Seq<Thread>,
    fewer_pending: Set<usize>,
)
    requires
        automaton.wf(),
        visited.len() == automaton.graph.edges.len(),
        closed_at(automaton, context, position, visited, threads, pending),
        grows(visited, more_visited),
        keeps(threads, more_threads),
        forall|state: usize|
            pending.contains(state) ==> fewer_pending.contains(state) || all_marked(
                automaton,
                more_visited,
                state,
            ),
        forall|e: int|
            0 <= e < more_visited.len() && more_visited[e] && !visited[e] ==> edge_done(
                automaton,
                context,
                position,
                more_visited,
                more_threads,
                fewer_pending,
                e,
            ),
    ensures
        closed_at(automaton, context, position, more_visited, more_threads, fewer_pending),
{
    assert forall|e: int|
        0 <= e < automaton.graph.edges.len() && #[trigger] more_visited[e] implies edge_done(
        automaton,
        context,
        position,
        more_visited,
        more_threads,
        fewer_pending,
        e,
    ) by {
        if visited[e] {
            assert(edge_done(automaton, context, position, visited, threads, pending, e));
            let edge = automaton.graph.edges[e];
            if becomes_thread(automaton, context, position, e) {
                let i = choose|i: int| 0 <= i < threads.len() && (#[trigger] threads[i]).edge == e;
                assert(more_threads[i] == threads[i]);
            } else if passes_at(edge.label, position, context) {
                if pending.contains(edge.end) {
                } else {
                    lemma_all_marked_grows(automaton, visited, more_visited, edge.end);
                }
            }
        }
    }
}

/// A state of which all edges are marked stays so under more marks.
pub proof fn lemma_all_marked_grows(
    automaton: Automaton,
    visited: Seq<bool>,
    more_visited: Seq<bool>,
    state: usize,
)
    requires
        automaton.wf(),
        visited.len() == automaton.graph.edges.len(),
        grows(visited, more_visited),
        all_marked(automaton, visited, state),
    ensures
        all_marked(automaton, more_visited, state),
{
    assert forall|k: int| 0 <= k < automaton.graph.out[state as int].len() implies more_visited[(
    #[trigger] automaton.graph.out[state as int][k]) as int] by {
        let e = automaton.graph.out[state as int][k];
        assert(visited[e as int]);
    }
}

/// Expanding a state leaves all its edges marked and every marked edge
/// with its due, apart from the states whose expansion was under way when
/// this one began.
pub proof fn lemma_expand_closed(
    automaton: Automaton,
    context: ContextView,
    state: usize,
    k: nat,
    cursor: CursorView,
    visited: Seq<bool>,
    threads: Seq<Thread>,
    pending: Set<usize>,
)
    requires
        automaton.wf(),
        visited.len() == automaton.graph.edges.len(),
        state < automaton.graph.out.len(),
        closed_at(automaton, context, cursor.position, visited, threads, pending.insert(state)),
        forall|j: int|
            0 <= j < k && j < automaton.graph.out[state as int].len() ==> visited[(
            #[trigger] automaton.graph.out[state as int][j]) as int],
    ensures
        closed_at(
            automaton,
            context,
            cursor.position,
            expand_spec(automaton, context, state, k, cursor, visited, threads).visited,
            expand_spec(automaton, context, state, k, cursor, visited, threads).threads,
            pending.insert(state),
        ),
        all_marked(
            automaton,
            expand_spec(automaton, context, state, k, cursor, visited, threads).visited,
            state,
        ),
        grows(visited, expand_spec(automaton, context, state, k, cursor, visited, threads).visited),
        keeps(threads, expand_spec(automaton, context, state, k, cursor, visited, threads).threads),
    decreases unvisited(visited),
        (if state < automaton.graph.out.len() {
            automaton.graph.out[state as int].len() - k
        } else {
            0
        }),
{
    let position = cursor.position;
    let row = automaton.graph.out[state as int];
    let under_way = pending.insert(state);
    if k >= row.len() {
    } else {
        let e = row[k as int];
        assert(e < automaton.graph.edges.len());
        if visited[e as int] {
            lemma_expand_closed(automaton, context, state, k + 1, cursor, visited, threads, pending);
        } else {
            lemma_unvisited_mark(visited, e as int);
            let marked = visited.update(e as int, true);
            let edge = automaton.graph.edges[e as int];
            assert(grows(visited, marked));
            if consumes(edge.label) || (passes(edge.label, cursor, context) && edge.end
                == automaton.accept) {
                let more = threads.push(Thread { edge: e, cursor });
                assert(more[threads.len() as int].edge == e);
                assert(has_thread(more, e as int));
                lemma_closed_carries(
                    automaton,
                    context,
                    position,
                    visited,
                    threads,
                    under_way,
                    marked,
                    more,
                    under_way,
                );
                lemma_expand_closed(automaton, context, state, k + 1, cursor, marked, more, pending);
                let end = expand_spec(automaton, context, state, k + 1, cursor, marked, more);
                assert(keeps(threads, end.threads)) by {
                    assert forall|i: int| 0 <= i < threads.len() implies #[trigger] end.threads[i]
                        == threads[i] by {
                        assert(end.threads[i] == more[i]);
                    }
                }
            } else if !passes(edge.label, cursor, context) {
                lemma_closed_carries(
                    automaton,
                    context,
                    position,
                    visited,
                    threads,
                    under_way,
                    marked,
                    threads,
                    under_way,
                );
                lemma_expand_closed(
                    automaton,
                    context,
                    state,
                    k + 1,
                    cursor,
                    marked,
                    threads,
                    pending,
                );
            } else {
                let next = cursor_update(cursor, edge.label);
                assert(next.position == position);
                let deeper = under_way.insert(edge.end);
                lemma_closed_carries(
                    automaton,
                    context,
                    position,
                    visited,
                    threads,
                    under_way,
                    marked,
                    threads,
                    deeper,
                );
                lemma_expand_closed(
                    automaton,
                    context,
                    edge.end,
                    0,
                    next,
                    marked,
                    threads,
                    under_way,
                );
                let inner = expand_spec(automaton, context, edge.end, 0, next, marked, threads);
                lemma_unvisited_grows(marked, inner.visited);
                lemma_closed_carries(
                    automaton,
                    context,
                    position,
                    inner.visited,
                    inner.threads,
                    deeper,
                    inner.visited,
                    inner.threads,
                    under_way,
                );
                assert forall|j: int|
                    0 <= j < k + 1 && j < row.len() implies inner.visited[(#[trigger] row[j]) as int] by {
                    if j < k {
                        assert(visited[row[j] as int]);
                    } else {
                        assert(marked[row[j] as int]);
                    }
                }
                lemma_expand_closed(
                    automaton,
                    context,
                    state,
                    k + 1,
                    cursor,
                    inner.visited,
                    inner.threads,
                    pending,
                );
                let end = expand_spec(
                    automaton,
                    context,
                    state,
                    k + 1,
                    cursor,
                    inner.visited,
                    inner.threads,
                );
                assert(grows(visited, end.visited)) by {
                    assert forall|x: int| 0 <= x < visited.len() && visited[x] implies #[trigger] end.visited[x] by {
                        assert(marked[x]);
                        assert(inner.visited[x]);
                    }
                }
                assert(keeps(threads, end.threads)) by {
                    assert forall|i: int| 0 <= i < threads.len() implies #[trigger] end.threads[i]
                        == threads[i] by {
                        assert(inner.threads[i] == threads[i]);
                    }
                }
            }
        }
    }
}

/// Whether the edges of `path`, taken one after the other from the state
/// at the position, can all be passed and lead to `target`. Only the
/// position of the cursor matters for that.
pub open spec fn leads(
    automaton: Automaton,
    context: ContextView,
    path: Seq<usize>,
    state: usize,
    position: usize,
    target: usize,
) -> bool
    decreases path.len(),
{
    if path.len() == 0 {
        state == target
    } else {
        let e = path[0];
        &&& state < automaton.graph.out.len()
        &&& automaton.graph.out[state as int].contains(e)
        &&& e < automaton.graph.edges.len()
        &&& passes_at(automaton.graph.edges[e as int].label, position, context)
        &&& position + increment_of(automaton.graph.edges[e as int].label) <= usize::MAX
        &&& leads(
            automaton,
            context,
            path.skip(1),
            automaton.graph.edges[e as int].end,
            (position + increment_of(automaton.graph.edges[e as int].label)) as usize,
            target,
        )
    }
}

/// On a way from a state whose edges are all marked, in a round whose
/// marked edges have all had their due, there is an edge with a thread: the
/// first edge of the way that becomes a thread. It can be passed, and it
/// leads to `target` or consumes and is followed by the rest of the way.
pub proof fn lemma_thread_on_the_way(
    automaton: Automaton,
    context: ContextView,
    position: usize,
    visited: Seq<bool>,
    threads: Seq<Thread>,
    path: Seq<usize>,
    state: usize,
) -> (r: (usize, Seq<usize>))
    requires
        automaton.wf(),
        visited.len() == automaton.graph.edges.len(),
        closed_at(automaton, context, position, visited, threads, Set::empty()),
        all_marked(automaton, visited, state),
        leads(automaton, context, path, state, position, automaton.accept),
        path.len() > 0,
    ensures
        r.0 < automaton.graph.edges.len(),
        has_thread(threads, r.0 as int),
        passes_at(automaton.graph.edges[r.0 as int].label, position, context),
        automaton.graph.edges[r.0 as int].end == automaton.accept || (consumes(
            automaton.graph.edges[r.0 as int].label,
        ) && position < usize::MAX && leads(
            automaton,
            context,
            r.1,
            automaton.graph.edges[r.0 as int].end,
            (position + 1) as usize,
            automaton.accept,
        ) && 0 < r.1.len() < path.len()),
    decreases path.len(),
{
    let e = path[0];
    let edge = automaton.graph.edges[e as int];
    let rest = path.skip(1);
    let k = choose|k: int|
        0 <= k < automaton.graph.out[state as int].len() && automaton.graph.out[state as int][k]
            == e;
    assert(visited[automaton.graph.out[state as int][k] as int]);
    assert(edge_done(automaton, context, position, visited, threads, Set::empty(), e as int));
    if becomes_thread(automaton, context, position, e as int) {
        if edge.end != automaton.accept {
            assert(leads(
                automaton,
                context,
                rest,
                edge.end,
                (position + 1) as usize,
                automaton.accept,
            ));
            assert(rest.len() > 0) by {
                if rest.len() == 0 {
                    assert(edge.end == automaton.accept);
                }
            }
        }
        (e, rest)
    } else {
        assert(all_marked(automaton, visited, edge.end));
        assert(increment_of(edge.label) == 0);
        assert(leads(automaton, context, rest, edge.end, position, automaton.accept));
        assert(rest.len() > 0) by {
            if rest.len() == 0 {
                assert(edge.end == automaton.accept);
            }
        }
        lemma_thread_on_the_way(automaton, context, position, visited, threads, rest, edge.end)
    }
}

/// The rest of a round keeps the marked edges with their due.
pub proof fn lemma_run_level_closed(
    automaton: Automaton,
    context: ContextView,
    queue: Seq<Thread>,
    i: nat,
    visited: Seq<bool>,
    frontier: Seq<Thread>,
    position: usize,
) -> (marks: Seq<bool>)
    requires
        automaton.wf(),
        context.text.len() <= usize::MAX,
        position < context.text.len(),
        threads_ok(automaton, queue, position),
        visited.len() == automaton.graph.edges.len(),
        threads_ok(automaton, frontier, (position + 1) as usize),
        closed_at(automaton, context, (position + 1) as usize, visited, frontier, Set::empty()),
    ensures
        run_level(automaton, context, queue, i, visited, frontier).found is Some || (grows(
            visited,
            marks,
        ) && closed_at(
            automaton,
            context,
            (position + 1) as usize,
            marks,
            run_level(automaton, context, queue, i, visited, frontier).frontier,
            Set::empty(),
        )),
    decreases queue.len() - i,
{
    if i >= queue.len() {
        visited
    } else {
        let thread = queue[i as int];
        assert(thread_ok(automaton, thread, position));
        let edge = automaton.graph.edges[thread.edge as int];
        if passes(edge.label, thread.cursor, context) {
            let next = cursor_update(thread.cursor, edge.label);
            if edge.end == automaton.accept {
                visited
            } else {
                let more = lemma_expand_level(
                    automaton,
                    context,
                    edge.end,
                    next,
                    visited,
                    frontier,
                );
                let marks = lemma_run_level_closed(
                    automaton,
                    context,
                    queue,
                    i + 1,
                    more.0,
                    more.1,
                    position,
                );
                if grows(more.0, marks) {
                    assert(grows(visited, marks)) by {
                        assert forall|e: int| 0 <= e < visited.len() && visited[e] implies #[trigger] marks[e] by {
                            assert(more.0[e]);
                        }
                    }
                }
                marks
            }
        } else {
            lemma_run_level_closed(automaton, context, queue, i + 1, visited, frontier, position)
        }
    }
}

/// Expanding a state in the course of a round: the marks and threads after
/// it, which keep every marked edge with its due and have all edges of the
/// state marked.
pub proof fn lemma_expand_level(
    automaton: Automaton,
    context: ContextView,
    state: usize,
    cursor: CursorView,
    visited: Seq<bool>,
    frontier: Seq<Thread>,
) -> (r: (Seq<bool>, Seq<Thread>))
    requires
        automaton.wf(),
        state < automaton.graph.out.len(),
        visited.len() == automaton.graph.edges.len(),
        cursor.groups.len() == 2 * automaton.group_count,
        threads_ok(automaton, frontier, cursor.position),
        closed_at(automaton, context, cursor.position, visited, frontier, Set::empty()),
    ensures
        r.0 == expand_spec(automaton, context, state, 0, cursor, visited, frontier).visited,
        r.1 == expand_spec(automaton, context, state, 0, cursor, visited, frontier).threads,
        r.0.len() == visited.len(),
        grows(visited, r.0),
        keeps(frontier, r.1),
        threads_ok(automaton, r.1, cursor.position),
        closed_at(automaton, context, cursor.position, r.0, r.1, Set::empty()),
        all_marked(automaton, r.0, state),
{
    let none = Set::<usize>::empty();
    lemma_closed_carries(
        automaton,
        context,
        cursor.position,
        visited,
        frontier,
        none,
        visited,
        frontier,
        none.insert(state),
    );
    lemma_expand_closed(automaton, context, state, 0, cursor, visited, frontier, none);
    lemma_expand(automaton, context, state, 0, cursor, visited, frontier);
    let after = expand_spec(automaton, context, state, 0, cursor, visited, frontier);
    lemma_closed_carries(
        automaton,
        context,
        cursor.position,
        after.visited,
        after.threads,
        none.insert(state),
        after.visited,
        after.threads,
        none,
    );
    (after.visited, after.threads)
}

/// A round in which thread number `t` waits and can pass its edge either
/// finds a match, or that edge consumes and the round ends with all edges
/// marked that leave the end of that edge, and with every marked edge with
/// its due.
pub proof fn lemma_run_level_covers(
    automaton: Automaton,
    context: ContextView,
    queue: Seq<Thread>,
    i: nat,
    visited: Seq<bool>,
    frontier: Seq<Thread>,
    position: usize,
    t: int,
) -> (marks: Seq<bool>)
    requires
        automaton.wf(),
        context.text.len() <= usize::MAX,
        position <= context.text.len(),
        threads_ok(automaton, queue, position),
        visited.len() == automaton.graph.edges.len(),
        position < usize::MAX ==> threads_ok(automaton, frontier, (position + 1) as usize),
        position < usize::MAX ==> closed_at(
            automaton,
            context,
            (position + 1) as usize,
            visited,
            frontier,
            Set::empty(),
        ),
        i <= t < queue.len(),
        passes_at(automaton.graph.edges[queue[t].edge as int].label, position, context),
    ensures
        run_level(automaton, context, queue, i, visited, frontier).found is Some || (
        automaton.graph.edges[queue[t].edge as int].end != automaton.accept && position
            < context.text.len() && marks.len() == visited.len() && closed_at(
            automaton,
            context,
            (position + 1) as usize,
            marks,
            run_level(automaton, context, queue, i, visited, frontier).frontier,
            Set::empty(),
        ) && all_marked(automaton, marks, automaton.graph.edges[queue[t].edge as int].end)),
    decreases queue.len() - i,
{
    let thread = queue[i as int];
    assert(thread_ok(automaton, thread, position));
    assert(thread_ok(automaton, queue[t], position));
    let edge = automaton.graph.edges[thread.edge as int];
    if passes(edge.label, thread.cursor, context) {
        let next = cursor_update(thread.cursor, edge.label);
        if edge.end == automaton.accept {
            visited
        } else {
            assert(consumes(edge.label));
            assert(position < context.text.len());
            let more = lemma_expand_level(automaton, context, edge.end, next, visited, frontier);
            if i == t {
                let marks = lemma_run_level_closed(
                    automaton,
                    context,
                    queue,
                    i + 1,
                    more.0,
                    more.1,
                    position,
                );
                if grows(more.0, marks) {
                    lemma_all_marked_grows(automaton, more.0, marks, edge.end);
                }
                marks
            } else {
                lemma_run_level_covers(
                    automaton,
                    context,
                    queue,
                    i + 1,
                    more.0,
                    more.1,
                    position,
                    t,
                )
            }
        }
    } else {
        assert(i != t);
        lemma_run_level_covers(automaton, context, queue, i + 1, visited, frontier, position, t)
    }
}

/// Once a match is found, the rounds that follow give a match.
pub proof fn lemma_best_is_kept(
    automaton: Automaton,
    context: ContextView,
    queue: Seq<Thread>,
    best: Option<CursorView>,
)
    requires
        best is Some,
    ensures
        run_levels(automaton, context, queue, best) is Some,
    decreases context.text.len() - level_position(queue),
{
    let level = run_level(automaton, context, queue, 0, fresh_marks(automaton), Seq::empty());
    let better = if level.found is Some {
        level.found
    } else {
        best
    };
    if level.frontier.len() == 0 {
    } else if level_position(queue) < level_position(level.frontier) <= context.text.len() {
        lemma_best_is_kept(automaton, context, level.frontier, better);
    }
}

/// If a way leads to the accept state from a state whose edges the round
/// has all marked, the rounds from this one on give a match.
pub proof fn lemma_levels_find(
    automaton: Automaton,
    context: ContextView,
    queue: Seq<Thread>,
    best: Option<CursorView>,
    position: usize,
    visited: Seq<bool>,
    path: Seq<usize>,
    state: usize,
)
    requires
        automaton.wf(),
        context.text.len() <= usize::MAX,
        position <= context.text.len(),
        threads_ok(automaton, queue, position),
        visited.len() == automaton.graph.edges.len(),
        closed_at(automaton, context, position, visited, queue, Set::empty()),
        all_marked(automaton, visited, state),
        leads(automaton, context, path, state, position, automaton.accept),
        path.len() > 0,
    ensures
        run_levels(automaton, context, queue, best) is Some,
    decreases path.len(),
{
    let on_the_way = lemma_thread_on_the_way(
        automaton,
        context,
        position,
        visited,
        queue,
        path,
        state,
    );
    let e = on_the_way.0;
    let rest = on_the_way.1;
    let t = choose|t: int| 0 <= t < queue.len() && (#[trigger] queue[t]).edge == e;
    let marks = fresh_marks(automaton);
    let none = Seq::<Thread>::empty();
    let after = lemma_run_level_covers(automaton, context, queue, 0, marks, none, position, t);
    lemma_run_level(automaton, context, queue, 0, marks, none, position);
    let level = run_level(automaton, context, queue, 0, marks, none);
    let better = if level.found is Some {
        level.found
    } else {
        best
    };
    if level.found is Some {
        if level.frontier.len() == 0 {
        } else if level_position(queue) < level_position(level.frontier) <= context.text.len() {
            lemma_best_is_kept(automaton, context, level.frontier, better);
        }
    } else {
        let next = (position + 1) as usize;
        let end = automaton.graph.edges[e as int].end;
        let further = lemma_thread_on_the_way(
            automaton,
            context,
            next,
            after,
            level.frontier,
            rest,
            end,
        );
        assert(level.frontier.len() > 0);
        assert(thread_ok(automaton, level.frontier[0], next));
        assert(thread_ok(automaton, queue[0], position));
        lemma_levels_find(automaton, context, level.frontier, better, next, after, rest, end);
    }
}

/// If a way leads from the start state to the accept state, beginning at
/// the cursor's position, the engine finds a match from the cursor.
pub proof fn lemma_simulate_finds(
    automaton: Automaton,
    context: ContextView,
    cursor: CursorView,
    path: Seq<usize>,
)
    requires
        automaton.wf(),
        context.text.len() <= usize::MAX,
        cursor.position <= context.text.len(),
        cursor.groups.len() == 2 * automaton.group_count,
        leads(automaton, context, path, automaton.start, cursor.position, automaton.accept),
        path.len() > 0,
    ensures
        simulate(automaton, context, cursor) is Some,
{
    let marks = fresh_marks(automaton);
    let none = Seq::<Thread>::empty();
    let first = lemma_expand_level(automaton, context, automaton.start, cursor, marks, none);
    lemma_levels_find(
        automaton,
        context,
        first.1,
        None,
        cursor.position,
        first.0,
        path,
        automaton.start,
    );
}

} // verus!
