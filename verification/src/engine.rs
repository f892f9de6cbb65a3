//! The matching engine: a breadth-first walk of the automaton in which all
//! threads read the text in step, one character per round.

use vstd::prelude::*;
use std::collections::{HashSet, VecDeque};
use crate::fsm::{layered, settled, Automaton, Layers, RegexNFA};
use crate::matching::{
    captures_within, characters, consumes, cursor_update, increment_of, lemma_pairs_entry,
    lemma_pairs_exit, lemma_pairs_other, pair_settled, pairs_ordered, pairs_settled, label_accepts, text_view, Context,
    ContextView, Cursor, CursorView, Match, MatchView,
};
use crate::node::NodeView;
use crate::paths::{
    accepts_between, lemma_first_match_decides_walks, lemma_simulate_decides_walks,
    lemma_simulate_follows_a_walk, walk_begins,
};

verus! {

/// One hypothesis of the engine: the edge to try next and the cursor that
/// has come to it.
pub struct Thread {
    pub edge: usize,
    pub cursor: CursorView,
}

/// The threads gathered so far and, for each edge, whether this round has
/// come to it already.
pub struct Expansion {
    pub threads: Seq<Thread>,
    pub visited: Seq<bool>,
}

/// The number of edges that a round has not come to yet.
pub open spec fn unvisited(visited: Seq<bool>) -> nat
    decreases visited.len(),
{
    if visited.len() == 0 {
        0
    } else {
        unvisited(visited.drop_last()) + if visited.last() {
            0nat
        } else {
            1nat
        }
    }
}

/// Marking an edge that was not marked leaves one edge fewer unmarked.
pub proof fn lemma_unvisited_mark(visited: Seq<bool>, e: int)
    requires
        0 <= e < visited.len(),
        !visited[e],
    ensures
        unvisited(visited.update(e, true)) + 1 == unvisited(visited),
    decreases visited.len(),
{
    let marked = visited.update(e, true);
    if e == visited.len() - 1 {
        assert(marked.drop_last() =~= visited.drop_last());
    } else {
        lemma_unvisited_mark(visited.drop_last(), e);
        assert(marked.drop_last() =~= visited.drop_last().update(e, true));
    }
}

/// No edge is marked at the start of a round.
pub open spec fn fresh_marks(automaton: Automaton) -> Seq<bool> {
    Seq::new(automaton.graph.edges.len(), |e: int| false)
}

/// Whether the engine lets a cursor through a label: the label accepts, or
/// it is epsilon.
pub open spec fn passes(label: NodeView, cursor: CursorView, context: ContextView) -> bool {
    label_accepts(label, cursor.position, context) || label is Epsilon
}

/// The threads that a cursor at `state` gives rise to, taking the edges
/// that leave the state from number `k` on, first choice first. An edge
/// that this round has come to already is passed over. An edge that
/// consumes becomes a thread. So does an edge that takes no character, can
/// be passed, and leads to the accept state. Any other edge that takes no
/// character and can be passed is followed at once, with the cursor updated,
/// and the threads from its end come before those of the next edge.
///
/// The two tests on the number of unmarked edges are always met, as
/// [`lemma_unvisited_mark`] and [`crate::laws::lemma_expand`] show: they
/// state why the definition comes to an end.
pub open spec fn expand_spec(
    automaton: Automaton,
    context: ContextView,
    state: usize,
    k: nat,
    cursor: CursorView,
    visited: Seq<bool>,
    threads: Seq<Thread>,
) -> Expansion
    decreases unvisited(visited),
        (if state < automaton.graph.out.len() {
            automaton.graph.out[state as int].len() - k
        } else {
            0
        }),
{
    if state >= automaton.graph.out.len() || k >= automaton.graph.out[state as int].len() {
        Expansion { threads, visited }
    } else {
        let e = automaton.graph.out[state as int][k as int];
        if e >= visited.len() || e >= automaton.graph.edges.len() || visited[e as int] {
            expand_spec(automaton, context, state, k + 1, cursor, visited, threads)
        } else {
            let marked = visited.update(e as int, true);
            let edge = automaton.graph.edges[e as int];
            if unvisited(marked) >= unvisited(visited) {
                Expansion { threads, visited }
            } else if consumes(edge.label) || (passes(edge.label, cursor, context) && edge.end
                == automaton.accept) {
                expand_spec(
                    automaton,
                    context,
                    state,
                    k + 1,
                    cursor,
                    marked,
                    threads.push(Thread { edge: e, cursor }),
                )
            } else if !passes(edge.label, cursor, context) {
                expand_spec(automaton, context, state, k + 1, cursor, marked, threads)
            } else {
                let inner = expand_spec(
                    automaton,
                    context,
                    edge.end,
                    0,
                    cursor_update(cursor, edge.label),
                    marked,
                    threads,
                );
                if unvisited(inner.visited) < unvisited(visited) {
                    expand_spec(
                        automaton,
                        context,
                        state,
                        k + 1,
                        cursor,
                        inner.visited,
                        inner.threads,
                    )
                } else {
                    inner
                }
            }
        }
    }
}

/// What one round yields: the threads of the next round, and the cursor of
/// the match if a thread of this round came to the accept state.
pub struct Level {
    pub frontier: Seq<Thread>,
    pub found: Option<CursorView>,
}

/// One round, from thread number `i` on. A thread whose label lets its
/// cursor through either ends the round with a match, if its edge leads to
/// the accept state, or adds the threads that [`expand_spec`] gives from the
/// end of its edge. The threads behind a match are dropped.
pub open spec fn run_level(
    automaton: Automaton,
    context: ContextView,
    queue: Seq<Thread>,
    i: nat,
    visited: Seq<bool>,
    frontier: Seq<Thread>,
) -> Level
    decreases queue.len() - i,
{
    if i >= queue.len() {
        Level { frontier, found: None }
    } else {
        let thread = queue[i as int];
        if thread.edge >= automaton.graph.edges.len() {
            run_level(automaton, context, queue, i + 1, visited, frontier)
        } else {
            let edge = automaton.graph.edges[thread.edge as int];
            if passes(edge.label, thread.cursor, context) {
                let next = cursor_update(thread.cursor, edge.label);
                if edge.end == automaton.accept {
                    Level { frontier, found: Some(next) }
                } else {
                    let more = expand_spec(
                        automaton,
                        context,
                        edge.end,
                        0,
                        next,
                        visited,
                        frontier,
                    );
                    run_level(automaton, context, queue, i + 1, more.visited, more.threads)
                }
            } else {
                run_level(automaton, context, queue, i + 1, visited, frontier)
            }
        }
    }
}

/// The position that the threads of a round share.
pub open spec fn level_position(queue: Seq<Thread>) -> int {
    if queue.len() > 0 {
        queue[0].cursor.position as int
    } else {
        0
    }
}

/// The rounds from the given one on. The result is the match of the last
/// round that found one, or `best` if none did. The rounds end when one
/// leaves no thread.
///
/// The test on the positions is always met, as
/// [`crate::laws::lemma_run_level`] shows: each round reads one character.
pub open spec fn run_levels(
    automaton: Automaton,
    context: ContextView,
    queue: Seq<Thread>,
    best: Option<CursorView>,
) -> Option<CursorView>
    decreases context.text.len() - level_position(queue),
{
    let level = run_level(automaton, context, queue, 0, fresh_marks(automaton), Seq::empty());
    let better = if level.found is Some {
        level.found
    } else {
        best
    };
    if level.frontier.len() == 0 {
        better
    } else if level_position(queue) < level_position(level.frontier) <= context.text.len() {
        run_levels(automaton, context, level.frontier, better)
    } else {
        better
    }
}

/// The match that starts at the cursor, if there is one: the cursor at its
/// end, with the offsets of the groups on the way written into it.
pub open spec fn simulate(automaton: Automaton, context: ContextView, cursor: CursorView) -> Option<
    CursorView,
> {
    run_levels(
        automaton,
        context,
        expand_spec(
            automaton,
            context,
            automaton.start,
            0,
            cursor,
            fresh_marks(automaton),
            Seq::empty(),
        ).threads,
        None,
    )
}

/// A thread of a round at `position`: its edge is one of the automaton, its
/// cursor is at the position and has the automaton's slots, and its edge
/// either consumes or leads to the accept state.
pub open spec fn thread_ok(automaton: Automaton, thread: Thread, position: usize) -> bool {
    &&& thread.edge < automaton.graph.edges.len()
    &&& thread.cursor.position == position
    &&& thread.cursor.groups.len() == 2 * automaton.group_count
    &&& (consumes(automaton.graph.edges[thread.edge as int].label)
        || automaton.graph.edges[thread.edge as int].end == automaton.accept)
}

pub open spec fn threads_ok(automaton: Automaton, threads: Seq<Thread>, position: usize) -> bool {
    forall|i: int| 0 <= i < threads.len() ==> thread_ok(automaton, #[trigger] threads[i], position)
}

/// The mathematical value of the engine's list of threads.
pub open spec fn threads_view(threads: Seq<(usize, Cursor)>) -> Seq<Thread> {
    threads.map_values(|thread: (usize, Cursor)| Thread { edge: thread.0, cursor: thread.1@ })
}

/// The mathematical value of an optional cursor.
pub open spec fn found_view(found: Option<Cursor>) -> Option<CursorView> {
    match found {
        Some(cursor) => Some(cursor@),
        None => None,
    }
}

/// Whether the slots are those of `initial`, but for offsets that were
/// written between `low` and `high`.
pub open spec fn slots_within(
    initial: Seq<Option<usize>>,
    groups: Seq<Option<usize>>,
    low: usize,
    high: usize,
) -> bool {
    &&& groups.len() == initial.len()
    &&& forall|i: int|
        0 <= i < groups.len() ==> #[trigger] groups[i] == initial[i] || (groups[i] matches Some(at)
            && low <= at <= high)
}

/// Whether [`slots_within`] holds of the cursor of every thread.
pub open spec fn threads_within(
    initial: Seq<Option<usize>>,
    threads: Seq<Thread>,
    low: usize,
    high: usize,
) -> bool {
    forall|i: int|
        0 <= i < threads.len() ==> slots_within(
            initial,
            (#[trigger] threads[i]).cursor.groups,
            low,
            high,
        )
}

/// Whether the capture pairs of a thread's cursor are in order for the
/// groups that are open at the state which the thread's edge leaves.
pub open spec fn thread_settled(layers: Layers, thread: Thread, position: usize) -> bool {
    &&& thread.edge < layers.sources.len()
    &&& pairs_settled(
        thread.cursor.groups,
        layers.depths[layers.sources[thread.edge as int] as int],
        position,
    )
}

/// Whether [`thread_settled`] holds of every thread.
pub open spec fn threads_settled(layers: Layers, threads: Seq<Thread>, position: usize) -> bool {
    forall|i: int| 0 <= i < threads.len() ==> thread_settled(layers, #[trigger] threads[i], position)
}

/// Passing an edge of a layered automaton keeps the capture pairs in order.
pub proof fn lemma_pairs_cross(
    automaton: Automaton,
    layers: Layers,
    e: usize,
    cursor: CursorView,
)
    requires
        automaton.wf(),
        layered(automaton.graph, layers),
        e < automaton.graph.edges.len(),
        cursor.groups.len() == 2 * automaton.group_count,
        cursor.position + increment_of(automaton.graph.edges[e as int].label) <= usize::MAX,
        pairs_settled(
            cursor.groups,
            layers.depths[layers.sources[e as int] as int],
            cursor.position,
        ),
    ensures
        pairs_settled(
            cursor_update(cursor, automaton.graph.edges[e as int].label).groups,
            layers.depths[automaton.graph.edges[e as int].end as int],
            cursor_update(cursor, automaton.graph.edges[e as int].label).position,
        ),
{
    let edge = automaton.graph.edges[e as int];
    let before = layers.depths[layers.sources[e as int] as int];
    let after = layers.depths[edge.end as int];
    assert(layers.sources[e as int] < automaton.graph.out.len());
    match edge.label {
        NodeView::GroupEntry(mark) => {
            lemma_pairs_entry(cursor, mark, before);
        },
        NodeView::GroupExit(mark) => {
            lemma_pairs_exit(cursor, mark, after);
        },
        _ => {
            lemma_pairs_other(cursor, edge.label, before);
        },
    }
}

/// Where no group is open, the order of the capture pairs does not depend
/// on the position.
pub proof fn lemma_pairs_outside(groups: Seq<Option<usize>>, here: usize, there: usize)
    requires
        pairs_settled(groups, Seq::empty(), here),
    ensures
        pairs_settled(groups, Seq::empty(), there),
{
    assert forall|slot: int|
        0 <= slot && slot + 1 < groups.len() && slot % 2 == 0 implies #[trigger] pair_settled(
        groups,
        Seq::empty(),
        there,
        slot,
    ) by {
        assert(pair_settled(groups, Seq::empty(), here, slot));
    }
}

/// The marks that a set of edge numbers stands for: an edge is marked when
/// its number is in the set.
pub open spec fn marks_of(visited: Set<usize>, count: nat) -> Seq<bool> {
    Seq::new(count, |e: int| visited.contains(e as usize))
}

impl RegexNFA {
    /// Adds to `threads` the threads that a cursor at `state` gives rise to:
    /// see [`expand_spec`]. `visited` holds the numbers of the edges that
    /// the round has come to.
    fn expand(
        &self,
        context: &Context,
        state: usize,
        cursor: &Cursor,
        visited: &mut HashSet<usize>,
        threads: &mut VecDeque<(usize, Cursor)>,
        Ghost(initial): Ghost<Seq<Option<usize>>>,
        Ghost(low): Ghost<usize>,
        Ghost(layers): Ghost<Layers>,
        Ghost(tidy): Ghost<bool>,
    )
        requires
            layered(self@.graph, layers),
            tidy ==> pairs_settled(
                cursor.groups@,
                layers.depths[state as int],
                cursor.position,
            ),
            tidy ==> threads_settled(layers, threads_view(old(threads)@), cursor.position),
            state < self@.graph.out.len(),
            cursor.groups@.len() == 2 * self@.group_count,
            threads_ok(self@, threads_view(old(threads)@), cursor.position),
            low <= cursor.position,
            slots_within(initial, cursor.groups@, low, cursor.position),
            threads_within(initial, threads_view(old(threads)@), low, cursor.position),
        ensures
            threads_within(initial, threads_view(final(threads)@), low, cursor.position),
            tidy ==> threads_settled(layers, threads_view(final(threads)@), cursor.position),
            (Expansion {
                threads: threads_view(final(threads)@),
                visited: marks_of(final(visited)@, self@.graph.edges.len()),
            }) == expand_spec(
                self@,
                context@,
                state,
                0,
                cursor@,
                marks_of(old(visited)@, self@.graph.edges.len()),
                threads_view(old(threads)@),
            ),
            unvisited(marks_of(final(visited)@, self@.graph.edges.len())) <= unvisited(
                marks_of(old(visited)@, self@.graph.edges.len()),
            ),
            threads_ok(self@, threads_view(final(threads)@), cursor.position),
            final(threads)@.len() >= old(threads)@.len(),
        decreases unvisited(marks_of(old(visited)@, self@.graph.edges.len())),
    {
        broadcast use vstd::std_specs::hash::group_hash_axioms;

        self.well_formed();
        let ghost count = self@.graph.edges.len();
        let _edges = self.edge_count();
        let row = self.out_edges(state);
        let mut k: usize = 0;
        while k < row.len()
            invariant
                k <= row.len(),
                self@.wf(),
                count == self@.graph.edges.len(),
                count <= usize::MAX,
                state < self@.graph.out.len(),
                row@ == self@.graph.out[state as int],
                unvisited(marks_of(visited@, count)) <= unvisited(marks_of(old(visited)@, count)),
                cursor.groups@.len() == 2 * self@.group_count,
                threads_ok(self@, threads_view(threads@), cursor.position),
                threads@.len() >= old(threads)@.len(),
                low <= cursor.position,
                slots_within(initial, cursor.groups@, low, cursor.position),
                threads_within(initial, threads_view(threads@), low, cursor.position),
                layered(self@.graph, layers),
                tidy ==> pairs_settled(
                    cursor.groups@,
                    layers.depths[state as int],
                    cursor.position,
                ),
                tidy ==> threads_settled(layers, threads_view(threads@), cursor.position),
                expand_spec(
                    self@,
                    context@,
                    state,
                    0,
                    cursor@,
                    marks_of(old(visited)@, count),
                    threads_view(old(threads)@),
                ) == expand_spec(
                    self@,
                    context@,
                    state,
                    k as nat,
                    cursor@,
                    marks_of(visited@, count),
                    threads_view(threads@),
                ),
            decreases row.len() - k,
        {
            let e = row[k];
            assert(e == self@.graph.out[state as int][k as int]);
            assert(layers.sources[e as int] == state);
            assert(marks_of(visited@, count)[e as int] == visited@.contains(e));
            if !visited.contains(&e) {
                proof {
                    lemma_unvisited_mark(marks_of(visited@, count), e as int);
                }
                let ghost before_marks = marks_of(visited@, count);
                visited.insert(e);
                proof {
                    assert(marks_of(visited@, count) =~= before_marks.update(e as int, true));
                }
                let transition = self.edge(e);
                let consuming = transition.node.increment() == 1;
                let passable = !consuming && (transition.node.accepts(cursor, context)
                    || transition.node.is_epsilon());
                if consuming || (passable && transition.end == self.accept()) {
                    let ghost before = threads@;
                    threads.push_back((e, cursor.duplicate()));
                    proof {
                        assert(threads_view(threads@) =~= threads_view(before).push(
                            Thread { edge: e, cursor: cursor@ },
                        ));
                    }
                } else if passable {
                    let next = cursor.advance(&transition.node);
                    proof {
                        if tidy {
                            lemma_pairs_cross(self@, layers, e, cursor@);
                        }
                    }
                    self.expand(
                        context,
                        transition.end,
                        &next,
                        visited,
                        threads,
                        Ghost(initial),
                        Ghost(low),
                        Ghost(layers),
                        Ghost(tidy),
                    );
                }
            }
            k += 1;
        }
    }

    /// The match that starts at the cursor, if there is one: see
    /// [`simulate`]. There is one exactly when some walk through the
    /// automaton leads from the start state to the accept state and begins
    /// with the cursor; the match is the end of such a walk. The cursor must
    /// lie in the text and have two slots for each group of the pattern.
    pub fn match_suffix(&self, cursor: Cursor, context: &Context) -> (found: Option<Cursor>)
        requires
            cursor.position <= context.text@.len(),
            cursor.groups@.len() == 2 * self@.group_count,
        ensures
            found_view(found) == simulate(self@, context@, cursor@),
            found matches Some(end) ==> cursor.position <= end.position <= context.text@.len()
                && end.groups@.len() == cursor.groups@.len(),
            found matches Some(end) ==> accepts_between(self@, context@, cursor@, end@),
            found is Some <==> exists|end: CursorView|
                accepts_between(self@, context@, cursor@, end),
            found matches Some(end) ==> slots_within(
                cursor.groups@,
                end.groups@,
                cursor.position,
                end.position,
            ),
            found matches Some(end) ==> pairs_ordered(cursor.groups@) ==> pairs_ordered(
                end.groups@,
            ),
    {
        self.well_formed();
        let ghost layers = choose|layers: Layers| settled(self@, layers);
        let ghost tidy = pairs_ordered(cursor.groups@);
        proof {
            if tidy {
                lemma_pairs_outside(cursor.groups@, 0, cursor.position);
            }
        }
        let length = context.text.len();
        let ghost count = self@.graph.edges.len();
        let mut visited: HashSet<usize> = HashSet::new();
        let mut queue: VecDeque<(usize, Cursor)> = VecDeque::new();
        proof {
            assert(threads_view(queue@) =~= Seq::<Thread>::empty());
            assert(marks_of(visited@, count) =~= fresh_marks(self@));
        }
        self.expand(
            context,
            self.start(),
            &cursor,
            &mut visited,
            &mut queue,
            Ghost(cursor.groups@),
            Ghost(cursor.position),
            Ghost(layers),
            Ghost(tidy),
        );
        let mut match_result: Option<Cursor> = None;
        let mut position: usize = cursor.position;
        loop
            invariant_except_break
                threads_ok(self@, threads_view(queue@), position),
                threads_within(cursor.groups@, threads_view(queue@), cursor.position, position),
                tidy ==> threads_settled(layers, threads_view(queue@), position),
                simulate(self@, context@, cursor@) == run_levels(
                    self@,
                    context@,
                    threads_view(queue@),
                    found_view(match_result),
                ),
            invariant
                self@.wf(),
                count == self@.graph.edges.len(),
                length == context.text@.len(),
                cursor.position <= position <= context.text@.len(),
                cursor.groups@.len() == 2 * self@.group_count,
                match_result matches Some(end) ==> cursor.position <= end.position
                    <= context.text@.len() && end.groups@.len() == cursor.groups@.len(),
                match_result matches Some(end) ==> slots_within(
                    cursor.groups@,
                    end.groups@,
                    cursor.position,
                    end.position,
                ),
                settled(self@, layers),
                match_result matches Some(end) ==> tidy ==> pairs_ordered(end.groups@),
            ensures
                found_view(match_result) == simulate(self@, context@, cursor@),
            decreases context.text@.len() - position,
        {
            let mut frontier: VecDeque<(usize, Cursor)> = VecDeque::new();
            visited = HashSet::new();
            proof {
                assert(threads_view(frontier@) =~= Seq::<Thread>::empty());
                assert(marks_of(visited@, count) =~= fresh_marks(self@));
            }
            let ghost waiting = threads_view(queue@);
            let ghost best = found_view(match_result);
            let ghost mut stopped = false;
            let ghost mut i: nat = 0;
            proof {
                assert(waiting.skip(0) =~= waiting);
            }
            loop
                invariant_except_break
                    threads_view(queue@) == waiting.skip(i as int),
                    !stopped,
                    found_view(match_result) == best,
                    run_level(self@, context@, waiting, 0, fresh_marks(self@), Seq::empty())
                        == run_level(
                        self@,
                        context@,
                        waiting,
                        i,
                        marks_of(visited@, count),
                        threads_view(frontier@),
                    ),
                invariant
                    i <= waiting.len(),
                    self@.wf(),
                    count == self@.graph.edges.len(),
                    length == context.text@.len(),
                    cursor.position <= position <= context.text@.len(),
                    cursor.groups@.len() == 2 * self@.group_count,
                    threads_ok(self@, waiting, position),
                    threads_within(cursor.groups@, waiting, cursor.position, position),
                    settled(self@, layers),
                    tidy ==> threads_settled(layers, waiting, position),
                    position < usize::MAX ==> tidy ==> threads_settled(
                        layers,
                        threads_view(frontier@),
                        (position + 1) as usize,
                    ),
                    match_result matches Some(end) ==> tidy ==> pairs_ordered(end.groups@),
                    frontier@.len() > 0 ==> position < context.text@.len(),
                    position < usize::MAX ==> threads_ok(
                        self@,
                        threads_view(frontier@),
                        (position + 1) as usize,
                    ),
                    position < usize::MAX ==> threads_within(
                        cursor.groups@,
                        threads_view(frontier@),
                        cursor.position,
                        (position + 1) as usize,
                    ),
                    position == usize::MAX ==> frontier@.len() == 0,
                    match_result matches Some(end) ==> slots_within(
                        cursor.groups@,
                        end.groups@,
                        cursor.position,
                        end.position,
                    ),
                    best matches Some(end) ==> cursor.position <= end.position
                        <= context.text@.len() && end.groups.len() == cursor.groups@.len(),
                ensures
                    waiting.len() > 0 || frontier@.len() == 0,
                    run_level(self@, context@, waiting, 0, fresh_marks(self@), Seq::empty())
                        == (Level {
                        frontier: threads_view(frontier@),
                        found: if stopped {
                            found_view(match_result)
                        } else {
                            None
                        },
                    }),
                    stopped ==> match_result is Some,
                    !stopped ==> found_view(match_result) == best,
                    frontier@.len() > 0 ==> position < context.text@.len(),
                    position < usize::MAX ==> threads_ok(
                        self@,
                        threads_view(frontier@),
                        (position + 1) as usize,
                    ),
                    match_result matches Some(end) ==> cursor.position <= end.position
                        <= context.text@.len() && end.groups@.len() == cursor.groups@.len(),
                decreases queue@.len(),
            {
                match queue.pop_front() {
                    None => {
                        proof {
                            assert(waiting.skip(i as int).len() == 0);
                            if waiting.len() == 0 {
                                assert(run_level(
                                    self@,
                                    context@,
                                    waiting,
                                    0,
                                    fresh_marks(self@),
                                    Seq::empty(),
                                ).frontier.len() == 0);
                            }
                        }
                        break ;
                    },
                    Some(thread) => {
                        let e = thread.0;
                        proof {
                            assert(waiting.skip(i as int).len() > 0);
                            assert(waiting.skip(i as int)[0] == waiting[i as int]);
                            assert(thread_ok(self@, waiting[i as int], position));
                            assert(slots_within(
                                cursor.groups@,
                                waiting[i as int].cursor.groups,
                                cursor.position,
                                position,
                            ));
                            if tidy {
                                assert(thread_settled(layers, waiting[i as int], position));
                            }
                            assert(waiting[i as int] == Thread { edge: e, cursor: thread.1@ });
                            assert(waiting.skip(i as int).subrange(
                                1,
                                waiting.skip(i as int).len() as int,
                            ) =~= waiting.skip(i as int + 1));
                            assert(threads_view(queue@) =~= waiting.skip(i as int + 1));
                        }
                        let transition = self.edge(e);
                        if transition.node.accepts(&thread.1, context)
                            || transition.node.is_epsilon() {
                            let next = thread.1.advance(&transition.node);
                            proof {
                                if tidy {
                                    lemma_pairs_cross(self@, layers, e, thread.1@);
                                    if self@.accept == transition.end {
                                        lemma_pairs_outside(next.groups@, next.position, 0);
                                    }
                                }
                            }
                            if self.accept() == transition.end {
                                match_result = Some(next);
                                proof {
                                    stopped = true;
                                }
                                break ;
                            }
                            self.expand(
                                context,
                                transition.end,
                                &next,
                                &mut visited,
                                &mut frontier,
                                Ghost(cursor.groups@),
                                Ghost(cursor.position),
                                Ghost(layers),
                                Ghost(tidy),
                            );
                        }
                        proof {
                            i = i + 1;
                        }
                    },
                }
            }
            if frontier.len() == 0 {
                break ;
            }
            proof {
                assert(threads_view(frontier@).len() == frontier@.len());
                assert(thread_ok(self@, threads_view(frontier@)[0], (position + 1) as usize));
                assert(thread_ok(self@, waiting[0], position));
            }
            queue = frontier;
            position = position + 1;
        }
        proof {
            lemma_simulate_follows_a_walk(self@, context@, cursor@);
            lemma_simulate_decides_walks(self@, context@, cursor@);
        }
        match_result
    }
}

/// The cursor that a search puts at an offset: no slot is written yet.
pub open spec fn fresh_cursor(automaton: Automaton, start: usize) -> CursorView {
    CursorView {
        position: start,
        groups: Seq::new((2 * automaton.group_count) as nat, |i: int| None::<usize>),
    }
}

/// The text and options of a search with the automaton.
pub open spec fn search_context(automaton: Automaton, text: Seq<char>) -> ContextView {
    ContextView { text, flags: automaton.flags }
}

/// The first offset from `from` on at which a match starts, and the cursor
/// at the end of that match.
pub open spec fn first_match(automaton: Automaton, text: Seq<char>, from: usize) -> Option<
    (usize, CursorView),
>
    decreases text.len() - from,
{
    if from > text.len() {
        None
    } else {
        match simulate(automaton, search_context(automaton, text), fresh_cursor(automaton, from)) {
            Some(end) => Some((from, end)),
            None => if from < text.len() && from < usize::MAX {
                first_match(automaton, text, (from + 1) as usize)
            } else {
                None
            },
        }
    }
}

/// The mathematical value of a [`RegexNFAMatches`]: what is searched, and
/// where the search goes on, unless it is over.
pub struct ScanView {
    pub automaton: Automaton,
    pub text: Seq<char>,
    pub start: usize,
    pub finished: bool,
}

/// What one step of a search yields: the next match, if there is one, and
/// the search after it. After a match the search goes on at its end, or one
/// character further on if the match is empty. After the last match, or
/// when the offset would leave the text, the search is over and stands at
/// the end of the text.
pub open spec fn scan_step(scan: ScanView) -> (Option<MatchView>, ScanView) {
    let over = ScanView { start: scan.text.len() as usize, finished: true, ..scan };
    if scan.finished {
        (None, scan)
    } else {
        match first_match(scan.automaton, scan.text, scan.start) {
            None => (None, over),
            Some((start, end)) => {
                let found = MatchView {
                    start,
                    end: end.position,
                    text: scan.text,
                    captures: end.groups,
                };
                if end.position != start {
                    (Some(found), ScanView { start: end.position, ..scan })
                } else if start < scan.text.len() {
                    (Some(found), ScanView { start: (start + 1) as usize, ..scan })
                } else {
                    (Some(found), over)
                }
            },
        }
    }
}

/// The mathematical value of an optional match.
pub open spec fn match_view(found: Option<Match>) -> Option<MatchView> {
    match found {
        Some(m) => Some(m@),
        None => None,
    }
}

/// The matches of a pattern in a text, from left to right, handed out one
/// at a time.
#[derive(Debug)]
pub struct RegexNFAMatches<'a> {
    text: &'a str,
    nfa: &'a RegexNFA,
    start: usize,
    context: Context,
    finished: bool,
}

impl<'a> View for RegexNFAMatches<'a> {
    type V = ScanView;

    closed spec fn view(&self) -> ScanView {
        ScanView {
            automaton: self.nfa@,
            text: self.text@,
            start: self.start,
            finished: self.finished,
        }
    }
}

impl<'a> RegexNFAMatches<'a> {
    /// The search holds the text as characters and the automaton's options,
    /// and its offset lies in the text.
    pub closed spec fn wf(&self) -> bool {
        &&& self.context@ == search_context(self.nfa@, self.text@)
        &&& self.start <= self.text@.len()
    }

    /// The next match, if there is one: see [`scan_step`]. A match lies in
    /// the text and starts no earlier than the search stood; the search goes
    /// on behind the start of the match and not before its end.
    pub fn next(&mut self) -> (found: Option<Match<'a>>)
        requires
            old(self).wf(),
        ensures
            final(self).wf(),
            (match_view(found), final(self)@) == scan_step(old(self)@),
            found matches Some(m) ==> old(self)@.start <= m@.start <= m@.end <= m@.text.len()
                && m@.captures.len() == 2 * old(self)@.automaton.group_count,
            found matches Some(m) ==> final(self)@.finished || (m@.start < final(self)@.start
                && m@.end <= final(self)@.start),
            found matches Some(m) ==> captures_within(m@),
            found matches Some(m) ==> pairs_ordered(m@.captures),
            found is None ==> final(self)@.finished,
    {
        if self.finished {
            return None;
        }
        self.nfa.well_formed();
        let length = self.context.text.len();
        loop
            invariant
                self.wf(),
                !self.finished,
                !old(self)@.finished,
                self@.automaton == old(self)@.automaton,
                self@.text == old(self)@.text,
                self@.automaton.wf(),
                length == self@.text.len(),
                old(self)@.start <= self@.start,
                first_match(old(self)@.automaton, old(self)@.text, old(self)@.start)
                    == first_match(self@.automaton, self@.text, self@.start),
            decreases length - self.start,
        {
            let cursor = Cursor::new(self.start, self.nfa.group_count());
            proof {
                assert(cursor@.groups =~= fresh_cursor(self.nfa@, self.start).groups);
                assert(cursor@ == fresh_cursor(self.nfa@, self.start));
                assert forall|slot: int|
                    0 <= slot && slot + 1 < cursor.groups@.len() && slot % 2
                        == 0 implies #[trigger] pair_settled(
                    cursor.groups@,
                    Seq::empty(),
                    0,
                    slot,
                ) by {
                    assert(cursor.groups@[slot + 1] is None);
                }
            }
            match self.nfa.match_suffix(cursor, &self.context) {
                Some(end) => {
                    let Cursor { position, groups } = end;
                    let found = Match::new(self.start, position, self.text, groups);
                    if position != self.start {
                        self.start = position;
                    } else if self.start < length {
                        self.start = self.start + 1;
                    } else {
                        self.finished = true;
                    }
                    return Some(found);
                },
                None => {
                    if self.start < length {
                        self.start = self.start + 1;
                    } else {
                        self.finished = true;
                        return None;
                    }
                },
            }
        }
    }
}

impl RegexNFA {
    /// The search for the matches of the pattern in a text, at its start.
    pub fn find_iter<'a>(&'a self, text: &'a str) -> (scan: RegexNFAMatches<'a>)
        ensures
            scan.wf(),
            scan@ == (ScanView { automaton: self@, text: text@, start: 0, finished: false }),
            text@.len() <= usize::MAX,
    {
        let chars = characters(text);
        let _length = chars.len();
        RegexNFAMatches {
            text: text,
            nfa: self,
            start: 0,
            context: Context::new_with_flags(chars, self.get_flags()),
            finished: false,
        }
    }

    /// The text of the first match of the pattern in a text, if there is a
    /// match.
    pub fn find(&self, text: &str) -> (part: Option<String>)
        ensures
            text_view(part) == match first_match(self@, text@, 0) {
                Some((start, end)) => Some(text@.subrange(start as int, end.position as int)),
                None => None,
            },
    {
        let mut scan = self.find_iter(text);
        match scan.next() {
            Some(found) => found.group(0),
            None => None,
        }
    }

    /// Whether the pattern matches somewhere in a text: whether a search
    /// from the start of the text finds a match, which is the case exactly
    /// when at some offset of the text a walk begins that leads through the
    /// automaton from its start state to its accept state.
    pub fn is_match(&self, text: &str) -> (r: bool)
        ensures
            r == (first_match(self@, text@, 0) is Some),
            r == walk_begins(self@, text@, 0),
            text@.len() <= usize::MAX,
    {
        self.well_formed();
        let mut scan = self.find_iter(text);
        proof {
            lemma_first_match_decides_walks(self@, text@, 0);
        }
        match scan.next() {
            Some(_) => true,
            None => false,
        }
    }
}

} // verus!
