//! The automaton: states joined by labelled edges, and the builder that
//! compiles a syntax tree into one.

use vstd::prelude::*;
use crate::matching::is_label;
use crate::node::{
    group_span, group_span_all, lemma_node_views, node_views, Node, NodeView, ParserError,
    Quantifier, UpperBound,
};
use crate::parser::run_parse;
use crate::grammar::run_parse_spec;
use crate::utils::RegexFlags;

verus! {

/// The mathematical value of a [`Transition`].
pub struct EdgeView {
    pub label: NodeView,
    pub end: usize,
}

/// An edge of the automaton: the label to pass and the state it leads to.
#[derive(Debug, Hash, PartialEq, Eq)]
pub struct Transition {
    pub node: Node,
    pub end: usize,
}

impl View for Transition {
    type V = EdgeView;

    open spec fn view(&self) -> EdgeView {
        EdgeView { label: self.node@, end: self.end }
    }
}

impl Transition {
    pub fn new(node: Node, end: usize) -> (transition: Transition)
        ensures
            transition@ == (EdgeView { label: node@, end }),
    {
        Transition { node, end }
    }
}

/// Whether a label may stand on an edge of an automaton with `group_count`
/// groups: it is no compound node, and a group mark names a slot that a
/// cursor of that automaton has.
pub open spec fn label_ok(label: NodeView, group_count: nat) -> bool {
    &&& is_label(label)
    &&& label matches NodeView::GroupEntry(slot) ==> slot < 2 * group_count
    &&& label matches NodeView::GroupExit(slot) ==> slot < 2 * group_count
}

/// The mathematical value of a [`Graph`]: the edges by number, and for each
/// state the numbers of the edges that leave it, first choice first.
pub struct GraphView {
    pub out: Seq<Seq<usize>>,
    pub edges: Seq<EdgeView>,
}

impl GraphView {
    pub open spec fn empty() -> GraphView {
        GraphView { out: Seq::empty(), edges: Seq::empty() }
    }

    /// The number that the next new state gets.
    pub open spec fn fresh(self) -> usize {
        self.out.len() as usize
    }

    /// The graph with one more state, which no edge leaves.
    pub open spec fn add_state(self) -> GraphView {
        GraphView { out: self.out.push(Seq::empty()), edges: self.edges }
    }

    /// The graph with one more edge, the last choice of the state it leaves.
    pub open spec fn add_edge(self, from: usize, label: NodeView, to: usize) -> GraphView {
        GraphView {
            out: if from < self.out.len() {
                self.out.update(from as int, self.out[from as int].push(self.edges.len() as usize))
            } else {
                self.out
            },
            edges: self.edges.push(EdgeView { label, end: to }),
        }
    }

    /// Every edge number names an edge, every edge leads to a state, and
    /// every label may stand on an edge.
    pub open spec fn wf(self, group_count: nat) -> bool {
        &&& forall|s: int, k: int|
            0 <= s < self.out.len() && 0 <= k < self.out[s].len() ==> (#[trigger] self.out[s][k])
                < self.edges.len()
        &&& forall|e: int|
            0 <= e < self.edges.len() ==> (#[trigger] self.edges[e]).end < self.out.len()
                && label_ok(self.edges[e].label, group_count)
    }
}

/// A new state keeps a graph well-formed.
pub proof fn lemma_add_state_wf(graph: GraphView, group_count: nat)
    requires
        graph.wf(group_count),
    ensures
        graph.add_state().wf(group_count),
{
    let after = graph.add_state();
    assert forall|s: int, k: int| 0 <= s < after.out.len() && 0 <= k < after.out[s].len() implies (
    #[trigger] after.out[s][k]) < after.edges.len() by {
        if s < graph.out.len() {
            assert(after.out[s][k] == graph.out[s][k]);
        }
    }
}

/// A new edge between states of the graph, with a label that may stand on
/// it, keeps the graph well-formed.
pub proof fn lemma_add_edge_wf(
    graph: GraphView,
    from: usize,
    label: NodeView,
    to: usize,
    group_count: nat,
)
    requires
        graph.wf(group_count),
        from < graph.out.len(),
        to < graph.out.len(),
        label_ok(label, group_count),
        graph.edges.len() < usize::MAX,
    ensures
        graph.add_edge(from, label, to).wf(group_count),
        graph.add_edge(from, label, to).out.len() == graph.out.len(),
{
    let after = graph.add_edge(from, label, to);
    assert forall|s: int, k: int| 0 <= s < after.out.len() && 0 <= k < after.out[s].len() implies (
    #[trigger] after.out[s][k]) < after.edges.len() by {
        if s == from && k == graph.out[s].len() {
        } else {
            assert(after.out[s][k] == graph.out[s][k]);
        }
    }
    assert forall|e: int| 0 <= e < after.edges.len() implies (#[trigger] after.edges[e]).end
        < after.out.len() && label_ok(after.edges[e].label, group_count) by {
        if e < graph.edges.len() {
            assert(after.edges[e] == graph.edges[e]);
        }
    }
}

/// A layering of a graph: for each state the capture groups that are open
/// there, innermost last, each named by its entry slot; and for each edge the
/// state that it leaves.
pub struct Layers {
    pub depths: Seq<Seq<usize>>,
    pub sources: Seq<usize>,
}

impl Layers {
    /// The layering with one more state, at which the given groups are open.
    pub open spec fn add_state(self, depth: Seq<usize>) -> Layers {
        Layers { depths: self.depths.push(depth), sources: self.sources }
    }

    /// The layering with one more edge, which leaves the state `from`.
    pub open spec fn add_edge(self, from: usize) -> Layers {
        Layers { depths: self.depths, sources: self.sources.push(from) }
    }

    /// Whether the states of `earlier` have the same open groups here.
    pub open spec fn keeps(self, earlier: Layers) -> bool {
        &&& earlier.depths.len() <= self.depths.len()
        &&& forall|s: int| 0 <= s < earlier.depths.len() ==> #[trigger] self.depths[s] == earlier.depths[s]
    }
}

/// What an edge does to the open groups: the mark of an entry opens its
/// group, the mark of an exit closes the innermost open group, which is its
/// own, and any other edge leaves them as they are. An entry slot is even
/// and the exit slot of the same group is the next number.
pub open spec fn edge_keeps_depth(label: NodeView, before: Seq<usize>, after: Seq<usize>) -> bool {
    match label {
        NodeView::GroupEntry(slot) => slot % 2 == 0 && after == before.push(slot),
        NodeView::GroupExit(slot) => slot % 2 == 1 && before == after.push((slot - 1) as usize),
        _ => after == before,
    }
}

/// Whether the layering fits the graph: each edge leaves the state in whose
/// list it stands, and does to the open groups what its label says.
pub open spec fn layered(graph: GraphView, layers: Layers) -> bool {
    &&& layers.depths.len() == graph.out.len()
    &&& layers.sources.len() == graph.edges.len()
    &&& forall|s: int, k: int|
        0 <= s < graph.out.len() && 0 <= k < graph.out[s].len() && (#[trigger] graph.out[s][k])
            < graph.edges.len() ==> layers.sources[graph.out[s][k] as int] == s
    &&& forall|e: int|
        0 <= e < graph.edges.len() ==> (#[trigger] layers.sources[e]) < graph.out.len()
            && graph.edges[e].end < graph.out.len() && edge_keeps_depth(
            graph.edges[e].label,
            layers.depths[layers.sources[e] as int],
            layers.depths[graph.edges[e].end as int],
        )
}

/// A new state keeps a layering fitting.
pub proof fn lemma_add_state_layered(graph: GraphView, layers: Layers, depth: Seq<usize>)
    requires
        layered(graph, layers),
    ensures
        layered(graph.add_state(), layers.add_state(depth)),
        layers.add_state(depth).keeps(layers),
        layers.add_state(depth).depths[graph.out.len() as int] == depth,
{
    let after = graph.add_state();
    let more = layers.add_state(depth);
    assert forall|s: int, k: int|
        0 <= s < after.out.len() && 0 <= k < after.out[s].len() && (#[trigger] after.out[s][k])
            < after.edges.len() implies more.sources[after.out[s][k] as int] == s by {
        if s < graph.out.len() {
            assert(after.out[s][k] == graph.out[s][k]);
        }
    }
    assert forall|e: int| 0 <= e < after.edges.len() implies (#[trigger] more.sources[e])
        < after.out.len() && after.edges[e].end < after.out.len() && edge_keeps_depth(
        after.edges[e].label,
        more.depths[more.sources[e] as int],
        more.depths[after.edges[e].end as int],
    ) by {
        assert(layers.sources[e] < graph.out.len());
    }
}

/// A new edge that does to the open groups what its label says keeps a
/// layering fitting.
pub proof fn lemma_add_edge_layered(
    graph: GraphView,
    layers: Layers,
    from: usize,
    label: NodeView,
    to: usize,
)
    requires
        layered(graph, layers),
        forall|s: int, k: int|
            0 <= s < graph.out.len() && 0 <= k < graph.out[s].len() ==> (#[trigger] graph.out[s][k])
                < graph.edges.len(),
        from < graph.out.len(),
        to < graph.out.len(),
        graph.edges.len() < usize::MAX,
        edge_keeps_depth(label, layers.depths[from as int], layers.depths[to as int]),
    ensures
        layered(graph.add_edge(from, label, to), layers.add_edge(from)),
        layers.add_edge(from).keeps(layers),
{
    let after = graph.add_edge(from, label, to);
    let more = layers.add_edge(from);
    assert forall|s: int, k: int|
        0 <= s < after.out.len() && 0 <= k < after.out[s].len() && (#[trigger] after.out[s][k])
            < after.edges.len() implies more.sources[after.out[s][k] as int] == s by {
        if s == from && k == graph.out[s].len() {
        } else {
            assert(after.out[s][k] == graph.out[s][k]);
        }
    }
    assert forall|e: int| 0 <= e < after.edges.len() implies (#[trigger] more.sources[e])
        < after.out.len() && after.edges[e].end < after.out.len() && edge_keeps_depth(
        after.edges[e].label,
        more.depths[more.sources[e] as int],
        more.depths[after.edges[e].end as int],
    ) by {
        if e < graph.edges.len() {
            assert(layers.sources[e] < graph.out.len());
            assert(after.edges[e] == graph.edges[e]);
        }
    }
}

/// The states and edges of an automaton.
#[derive(Debug)]
pub struct Graph {
    out: Vec<Vec<usize>>,
    edges: Vec<Transition>,
}

impl View for Graph {
    type V = GraphView;

    closed spec fn view(&self) -> GraphView {
        GraphView {
            out: self.out@.map_values(|row: Vec<usize>| row@),
            edges: self.edges@.map_values(|edge: Transition| edge@),
        }
    }
}

impl Graph {
    /// A graph with no state.
    pub fn new() -> (graph: Graph)
        ensures
            graph@ == GraphView::empty(),
    {
        let graph = Graph { out: Vec::new(), edges: Vec::new() };
        proof {
            assert(graph@.out =~= Seq::<Seq<usize>>::empty());
            assert(graph@.edges =~= Seq::<EdgeView>::empty());
        }
        graph
    }

    /// Adds a state and gives its number.
    pub fn add_state(&mut self) -> (id: usize)
        ensures
            final(self)@ == old(self)@.add_state(),
            id == old(self)@.fresh(),
            id == old(self)@.out.len(),
    {
        let id = self.out.len();
        self.out.push(Vec::new());
        proof {
            assert(self@.out =~= old(self)@.out.push(Seq::empty()));
        }
        id
    }

    /// Adds an edge as the last choice of the state `from`.
    pub fn add_edge(&mut self, from: usize, node: Node, to: usize)
        requires
            from < old(self)@.out.len(),
        ensures
            final(self)@ == old(self)@.add_edge(from, node@, to),
            old(self)@.edges.len() < usize::MAX,
    {
        let id = self.edges.len();
        self.edges.push(Transition::new(node, to));
        let _count = self.edges.len();
        self.out[from].push(id);
        proof {
            assert(self@.edges =~= old(self)@.edges.push(EdgeView { label: node@, end: to }));
            assert(self@.out =~= old(self)@.out.update(
                from as int,
                old(self)@.out[from as int].push(id),
            ));
        }
    }

    pub fn state_count(&self) -> (count: usize)
        ensures
            count == self@.out.len(),
    {
        self.out.len()
    }

    pub fn edge_count(&self) -> (count: usize)
        ensures
            count == self@.edges.len(),
    {
        self.edges.len()
    }

    /// The edge with the given number.
    pub fn edge(&self, number: usize) -> (edge: &Transition)
        requires
            number < self@.edges.len(),
        ensures
            edge@ == self@.edges[number as int],
    {
        &self.edges[number]
    }

    /// The numbers of the edges that leave a state, first choice first.
    pub fn out_edges(&self, state: usize) -> (row: &Vec<usize>)
        requires
            state < self@.out.len(),
        ensures
            row@ == self@.out[state as int],
    {
        &self.out[state]
    }
}

/// A graph together with the state at which the part just built ends.
pub struct Built {
    pub graph: GraphView,
    pub end: usize,
}

/// One new state, reached from `from` by one edge with the given label.
pub open spec fn leaf_spec(graph: GraphView, label: NodeView, from: usize) -> Built {
    let to = graph.fresh();
    Built { graph: graph.add_state().add_edge(from, label, to), end: to }
}

/// The graph after compiling `node` so that it starts at the state `from`,
/// and the state where it ends. Items of a sequence follow one another end
/// to start. An alternation leaves `from` by one epsilon edge for each
/// branch, the first branch first, and the branches meet again at one state.
/// A leaf is one edge.
pub open spec fn build_spec(graph: GraphView, node: NodeView, from: usize) -> Built
    decreases node, 4nat, 0nat,
{
    match node {
        NodeView::Match(_, quantifier) => quantify_spec(graph, node, quantifier, from),
        NodeView::Group(_, _, quantifier) => quantify_spec(graph, node, quantifier, from),
        NodeView::Expression(items, alternative) => match alternative {
            None => sequence_spec(graph, items, 0, from),
            Some(other) => {
                let first = graph.fresh();
                let entered = graph.add_state().add_edge(from, NodeView::Epsilon, first);
                let left = sequence_spec(entered, items, 0, first);
                let exit = left.graph.fresh();
                let joined = left.graph.add_state().add_edge(left.end, NodeView::Epsilon, exit);
                let second = joined.fresh();
                let split = joined.add_state().add_edge(from, NodeView::Epsilon, second);
                let right = build_spec(split, *other, second);
                Built {
                    graph: right.graph.add_edge(right.end, NodeView::Epsilon, exit),
                    end: exit,
                }
            },
        },
        NodeView::Epsilon => leaf_spec(graph, NodeView::Epsilon, from),
        NodeView::GroupLink => leaf_spec(graph, NodeView::Epsilon, from),
        NodeView::GroupEntry(_) => leaf_spec(graph, NodeView::Epsilon, from),
        NodeView::GroupExit(_) => leaf_spec(graph, NodeView::Epsilon, from),
        _ => leaf_spec(graph, node, from),
    }
}

/// The items from number `i` on, one after the other, starting at `from`.
pub open spec fn sequence_spec(graph: GraphView, items: Seq<NodeView>, i: nat, from: usize) -> Built
    decreases items, 0nat, items.len() - i,
{
    if i >= items.len() {
        Built { graph, end: from }
    } else {
        let item = build_spec(graph, items[i as int], from);
        sequence_spec(item.graph, items, i + 1, item.end)
    }
}

/// What a quantifier repeats, once: the item of a match, or the expression
/// of a group, which for a capturing group stands between an edge that marks
/// the entry and one that marks the exit. Group `g` writes to the capture
/// slots `2g` and `2g + 1`.
pub open spec fn body_spec(graph: GraphView, unit: NodeView, from: usize) -> Built
    decreases unit, 0nat, 0nat,
{
    match unit {
        NodeView::Match(inner, _) => build_spec(graph, *inner, from),
        NodeView::Group(inner, index, _) => match index {
            None => build_spec(graph, *inner, from),
            Some(number) => {
                let open = graph.fresh();
                let entered = graph.add_state().add_edge(
                    from,
                    NodeView::GroupEntry((2 * number) as usize),
                    open,
                );
                let inside = build_spec(entered, *inner, open);
                let close = inside.graph.fresh();
                Built {
                    graph: inside.graph.add_state().add_edge(
                        inside.end,
                        NodeView::GroupExit((2 * number + 1) as usize),
                        close,
                    ),
                    end: close,
                }
            },
        },
        _ => Built { graph, end: from },
    }
}

/// `count` copies of the unit, one after the other.
pub open spec fn repeat_spec(graph: GraphView, unit: NodeView, count: nat, from: usize) -> Built
    decreases unit, 1nat, count,
{
    if count == 0 {
        Built { graph, end: from }
    } else {
        let copy = body_spec(graph, unit, from);
        repeat_spec(copy.graph, unit, (count - 1) as nat, copy.end)
    }
}

/// One copy of the unit that may be skipped: from `from` an epsilon edge
/// leads to `exit`. The greedy form offers the copy first, the lazy form the
/// way out.
pub open spec fn optional_spec(
    graph: GraphView,
    unit: NodeView,
    lazy: bool,
    from: usize,
    exit: usize,
) -> Built
    decreases unit, 1nat, 0nat,
{
    if lazy {
        body_spec(graph.add_edge(from, NodeView::Epsilon, exit), unit, from)
    } else {
        let copy = body_spec(graph, unit, from);
        Built { graph: copy.graph.add_edge(from, NodeView::Epsilon, exit), end: copy.end }
    }
}

/// `count` copies of the unit, each of which may be skipped.
pub open spec fn optionals_spec(
    graph: GraphView,
    unit: NodeView,
    lazy: bool,
    count: nat,
    from: usize,
    exit: usize,
) -> Built
    decreases unit, 2nat, count,
{
    if count == 0 {
        Built { graph, end: from }
    } else {
        let copy = optional_spec(graph, unit, lazy, from, exit);
        optionals_spec(copy.graph, unit, lazy, (count - 1) as nat, copy.end, exit)
    }
}

/// Any number of copies of the unit: the copy starts at `head`, an epsilon
/// edge leads from its end back to `head`, and one leads from `head` to
/// `exit`. The greedy form offers the copy first, the lazy form the way out.
pub open spec fn star_spec(
    graph: GraphView,
    unit: NodeView,
    lazy: bool,
    head: usize,
    exit: usize,
) -> GraphView
    decreases unit, 1nat, 0nat,
{
    if lazy {
        let copy = body_spec(graph.add_edge(head, NodeView::Epsilon, exit), unit, head);
        copy.graph.add_edge(copy.end, NodeView::Epsilon, head)
    } else {
        let copy = body_spec(graph, unit, head);
        copy.graph.add_edge(copy.end, NodeView::Epsilon, head).add_edge(
            head,
            NodeView::Epsilon,
            exit,
        )
    }
}

/// The number of copies that may be skipped in a range from `lower` to
/// `most`.
pub open spec fn spare_copies(lower: u64, most: u64) -> nat {
    if most >= lower {
        (most - lower) as nat
    } else {
        0
    }
}

/// The unit under its quantifier. A range is `lower` copies, followed by
/// nothing more, by any number of copies, or by copies that may be skipped.
pub open spec fn quantify_spec(
    graph: GraphView,
    unit: NodeView,
    quantifier: Quantifier,
    from: usize,
) -> Built
    decreases unit, 3nat, 0nat,
{
    match quantifier {
        Quantifier::Absent => body_spec(graph, unit, from),
        Quantifier::ZeroOrOne(lazy) => {
            let exit = graph.fresh();
            let copy = optional_spec(graph.add_state(), unit, lazy, from, exit);
            Built { graph: copy.graph.add_edge(copy.end, NodeView::Epsilon, exit), end: exit }
        },
        Quantifier::ZeroOrMore(lazy) => {
            let exit = graph.fresh();
            Built { graph: star_spec(graph.add_state(), unit, lazy, from, exit), end: exit }
        },
        Quantifier::OneOrMore(lazy) => {
            let copy = body_spec(graph, unit, from);
            let exit = copy.graph.fresh();
            let more = copy.graph.add_state();
            Built {
                graph: if lazy {
                    more.add_edge(copy.end, NodeView::Epsilon, exit).add_edge(
                        copy.end,
                        NodeView::Epsilon,
                        from,
                    )
                } else {
                    more.add_edge(copy.end, NodeView::Epsilon, from).add_edge(
                        copy.end,
                        NodeView::Epsilon,
                        exit,
                    )
                },
                end: exit,
            }
        },
        Quantifier::Range(lower, upper, lazy) => {
            let fixed = repeat_spec(graph, unit, lower as nat, from);
            match upper {
                UpperBound::Undefined => fixed,
                UpperBound::Unbounded => {
                    let exit = fixed.graph.fresh();
                    Built {
                        graph: star_spec(fixed.graph.add_state(), unit, lazy, fixed.end, exit),
                        end: exit,
                    }
                },
                UpperBound::Bounded(most) => {
                    let exit = fixed.graph.fresh();
                    let spare = optionals_spec(
                        fixed.graph.add_state(),
                        unit,
                        lazy,
                        spare_copies(lower, most),
                        fixed.end,
                        exit,
                    );
                    Built {
                        graph: spare.graph.add_edge(spare.end, NodeView::Epsilon, exit),
                        end: exit,
                    }
                },
            }
        },
    }
}

/// The mathematical value of a [`RegexNFA`].
pub struct Automaton {
    pub start: usize,
    pub accept: usize,
    pub graph: GraphView,
    pub group_count: usize,
    pub flags: RegexFlags,
}

impl Automaton {
    /// The graph is well-formed and its states can be numbered, start and
    /// accept are two states of it, no edge leaves the accept state, and a
    /// cursor with two slots for each group can be made.
    pub open spec fn wf(self) -> bool {
        &&& self.graph.wf(self.group_count as nat)
        &&& self.graph.out.len() <= usize::MAX
        &&& self.start < self.graph.out.len()
        &&& self.accept < self.graph.out.len()
        &&& self.start != self.accept
        &&& self.graph.out[self.accept as int].len() == 0
        &&& 2 * self.group_count <= usize::MAX
    }
}

/// The automaton of a syntax tree: state 0 is the start, the tree is
/// compiled from there, and one epsilon edge leads from its end to the
/// accept state, which no edge leaves. The number of groups is that of the
/// tree.
pub open spec fn compile_spec(tree: NodeView, flags: RegexFlags) -> Automaton {
    let body = build_spec(GraphView::empty().add_state(), tree, 0);
    let accept = body.graph.fresh();
    Automaton {
        start: 0,
        accept,
        graph: body.graph.add_state().add_edge(body.end, NodeView::Epsilon, accept),
        group_count: group_span(tree) as usize,
        flags,
    }
}

impl Graph {
    /// Adds a state to a well-formed graph.
    fn state(
        &mut self,
        Ghost(group_count): Ghost<nat>,
        layers: &mut Ghost<Layers>,
        Ghost(depth): Ghost<Seq<usize>>,
    ) -> (id: usize)
        requires
            old(self)@.wf(group_count),
            layered(old(self)@, old(layers)@),
        ensures
            final(self)@ == old(self)@.add_state(),
            id == old(self)@.fresh(),
            id == old(self)@.out.len(),
            final(self)@.out.len() == old(self)@.out.len() + 1,
            final(self)@.wf(group_count),
            layered(final(self)@, final(layers)@),
            final(layers)@.keeps(old(layers)@),
            final(layers)@.depths[id as int] == depth,
    {
        proof {
            lemma_add_state_wf(self@, group_count);
            lemma_add_state_layered(self@, layers@, depth);
            *layers = Ghost(layers@.add_state(depth));
        }
        self.add_state()
    }

    /// Adds an edge to a well-formed graph.
    fn link(&mut self, from: usize, node: Node, to: usize, Ghost(group_count): Ghost<nat>,
        layers: &mut Ghost<Layers>)
        requires
            old(self)@.wf(group_count),
            layered(old(self)@, old(layers)@),
            from < old(self)@.out.len(),
            to < old(self)@.out.len(),
            label_ok(node@, group_count),
            edge_keeps_depth(
                node@,
                old(layers)@.depths[from as int],
                old(layers)@.depths[to as int],
            ),
        ensures
            final(self)@ == old(self)@.add_edge(from, node@, to),
            final(self)@.out.len() == old(self)@.out.len(),
            final(self)@.wf(group_count),
            layered(final(self)@, final(layers)@),
            final(layers)@.keeps(old(layers)@),
            final(layers)@.depths == old(layers)@.depths,
    {
        self.add_edge(from, node, to);
        proof {
            lemma_add_edge_wf(old(self)@, from, node@, to, group_count);
            lemma_add_edge_layered(old(self)@, layers@, from, node@, to);
            *layers = Ghost(layers@.add_edge(from));
        }
    }

    /// Compiles a leaf: one new state and one edge to it.
    fn leaf(&mut self, label: Node, from: usize, Ghost(group_count): Ghost<nat>,
        layers: &mut Ghost<Layers>) -> (end: usize)
        requires
            old(self)@.wf(group_count),
            layered(old(self)@, old(layers)@),
            from < old(self)@.out.len(),
            label_ok(label@, group_count),
            !(label@ is GroupEntry),
            !(label@ is GroupExit),
        ensures
            (Built { graph: final(self)@, end }) == leaf_spec(old(self)@, label@, from),
            final(self)@.wf(group_count),
            layered(final(self)@, final(layers)@),
            final(layers)@.keeps(old(layers)@),
            end < final(self)@.out.len(),
            final(layers)@.depths[end as int] == old(layers)@.depths[from as int],
            old(self)@.out.len() <= final(self)@.out.len(),
    {
        let ghost depth = layers@.depths[from as int];
        let to = self.state(Ghost(group_count), layers, Ghost(depth));
        self.link(from, label, to, Ghost(group_count), layers);
        to
    }

    /// Compiles `node` from the state `from` on: see [`build_spec`].
    fn build(&mut self, node: &Node, from: usize, Ghost(group_count): Ghost<nat>,
        layers: &mut Ghost<Layers>) -> (end: usize)
        requires
            old(self)@.wf(group_count),
            layered(old(self)@, old(layers)@),
            from < old(self)@.out.len(),
            group_span(node@) <= group_count,
            2 * group_count <= usize::MAX,
        ensures
            (Built { graph: final(self)@, end }) == build_spec(old(self)@, node@, from),
            final(self)@.wf(group_count),
            layered(final(self)@, final(layers)@),
            final(layers)@.keeps(old(layers)@),
            end < final(self)@.out.len(),
            final(layers)@.depths[end as int] == old(layers)@.depths[from as int],
            old(self)@.out.len() <= final(self)@.out.len(),
        decreases node, 4nat, 0nat,
    {
        let ghost depth = layers@.depths[from as int];
        match node {
            Node::Match(_, quantifier) => self.quantify(node, *quantifier, from, Ghost(group_count), layers),
            Node::Group(_, _, quantifier) => self.quantify(
                node,
                *quantifier,
                from,
                Ghost(group_count),
                layers,
            ),
            Node::Expression(items, alternative) => {
                proof {
                    lemma_node_views(items@);
                }
                match alternative {
                    None => self.sequence(items, from, Ghost(group_count), layers),
                    Some(other) => {
                        let first = self.state(Ghost(group_count), layers, Ghost(depth));
                        self.link(from, Node::Epsilon, first, Ghost(group_count), layers);
                        let left_end = self.sequence(items, first, Ghost(group_count), layers);
                        let exit = self.state(Ghost(group_count), layers, Ghost(depth));
                        self.link(left_end, Node::Epsilon, exit, Ghost(group_count), layers);
                        let second = self.state(Ghost(group_count), layers, Ghost(depth));
                        self.link(from, Node::Epsilon, second, Ghost(group_count), layers);
                        let right_end = self.build(other, second, Ghost(group_count), layers);
                        self.link(right_end, Node::Epsilon, exit, Ghost(group_count), layers);
                        exit
                    },
                }
            },
            Node::Epsilon => self.leaf(Node::Epsilon, from, Ghost(group_count), layers),
            Node::GroupLink => self.leaf(Node::Epsilon, from, Ghost(group_count), layers),
            Node::GroupEntry(_) => self.leaf(Node::Epsilon, from, Ghost(group_count), layers),
            Node::GroupExit(_) => self.leaf(Node::Epsilon, from, Ghost(group_count), layers),
            _ => self.leaf(node.deep_copy(), from, Ghost(group_count), layers),
        }
    }

    /// Compiles the items one after the other: see [`sequence_spec`].
    fn sequence(&mut self, items: &Vec<Box<Node>>, from: usize, Ghost(group_count): Ghost<nat>,
        layers: &mut Ghost<Layers>) -> (end:
        usize)
        requires
            old(self)@.wf(group_count),
            layered(old(self)@, old(layers)@),
            from < old(self)@.out.len(),
            group_span_all(node_views(items@)) <= group_count,
            2 * group_count <= usize::MAX,
        ensures
            (Built { graph: final(self)@, end }) == sequence_spec(
                old(self)@,
                node_views(items@),
                0,
                from,
            ),
            final(self)@.wf(group_count),
            layered(final(self)@, final(layers)@),
            final(layers)@.keeps(old(layers)@),
            end < final(self)@.out.len(),
            final(layers)@.depths[end as int] == old(layers)@.depths[from as int],
            old(self)@.out.len() <= final(self)@.out.len(),
        decreases items, 0nat, 0nat,
    {
        let ghost values = node_views(items@);
        proof {
            lemma_node_views(items@);
        }
        let mut cur = from;
        let mut i: usize = 0;
        while i < items.len()
            invariant
                i <= items.len(),
                values == node_views(items@),
                values.len() == items@.len(),
                forall|j: int| 0 <= j < items@.len() ==> #[trigger] values[j] == items@[j]@,
                self@.wf(group_count),
                layered(self@, layers@),
                layers@.keeps(old(layers)@),
                layers@.depths[cur as int] == old(layers)@.depths[from as int],
                cur < self@.out.len(),
                old(self)@.out.len() <= self@.out.len(),
                group_span_all(values) <= group_count,
                2 * group_count <= usize::MAX,
                sequence_spec(old(self)@, values, 0, from) == sequence_spec(
                    self@,
                    values,
                    i as nat,
                    cur,
                ),
            decreases items.len() - i,
        {
            proof {
                crate::node::lemma_group_span_all_bounds(values, i as int);
            }
            cur = self.build(&items[i], cur, Ghost(group_count), layers);
            i += 1;
        }
        cur
    }

    /// Compiles what a quantifier repeats, once: see [`body_spec`].
    fn body(&mut self, unit: &Node, from: usize, Ghost(group_count): Ghost<nat>,
        layers: &mut Ghost<Layers>) -> (end: usize)
        requires
            old(self)@.wf(group_count),
            layered(old(self)@, old(layers)@),
            from < old(self)@.out.len(),
            group_span(unit@) <= group_count,
            2 * group_count <= usize::MAX,
        ensures
            (Built { graph: final(self)@, end }) == body_spec(old(self)@, unit@, from),
            final(self)@.wf(group_count),
            layered(final(self)@, final(layers)@),
            final(layers)@.keeps(old(layers)@),
            end < final(self)@.out.len(),
            final(layers)@.depths[end as int] == old(layers)@.depths[from as int],
            old(self)@.out.len() <= final(self)@.out.len(),
        decreases unit, 0nat, 0nat,
    {
        let ghost depth = layers@.depths[from as int];
        match unit {
            Node::Match(inner, _) => self.build(inner, from, Ghost(group_count), layers),
            Node::Group(inner, index, _) => match index {
                None => self.build(inner, from, Ghost(group_count), layers),
                Some(number) => {
                    let slot: usize = 2 * *number;
                    let open = self.state(Ghost(group_count), layers, Ghost(depth.push(slot)));
                    self.link(from, Node::group_entry(slot), open, Ghost(group_count), layers);
                    let inner_end = self.build(inner, open, Ghost(group_count), layers);
                    let close = self.state(Ghost(group_count), layers, Ghost(depth));
                    self.link(
                        inner_end,
                        Node::group_exit(2 * *number + 1),
                        close,
                        Ghost(group_count),
                        layers,
                    );
                    close
                },
            },
            _ => from,
        }
    }

    /// Compiles `count` copies of the unit: see [`repeat_spec`].
    fn repeat(&mut self, unit: &Node, count: u64, from: usize, Ghost(group_count): Ghost<nat>,
        layers: &mut Ghost<Layers>) -> (end:
        usize)
        requires
            old(self)@.wf(group_count),
            layered(old(self)@, old(layers)@),
            from < old(self)@.out.len(),
            group_span(unit@) <= group_count,
            2 * group_count <= usize::MAX,
        ensures
            (Built { graph: final(self)@, end }) == repeat_spec(
                old(self)@,
                unit@,
                count as nat,
                from,
            ),
            final(self)@.wf(group_count),
            layered(final(self)@, final(layers)@),
            final(layers)@.keeps(old(layers)@),
            end < final(self)@.out.len(),
            final(layers)@.depths[end as int] == old(layers)@.depths[from as int],
            old(self)@.out.len() <= final(self)@.out.len(),
        decreases unit, 1nat, 0nat,
    {
        let mut cur = from;
        let mut i: u64 = 0;
        while i < count
            invariant
                i <= count,
                self@.wf(group_count),
                layered(self@, layers@),
                layers@.keeps(old(layers)@),
                layers@.depths[cur as int] == old(layers)@.depths[from as int],
                cur < self@.out.len(),
                old(self)@.out.len() <= self@.out.len(),
                group_span(unit@) <= group_count,
                2 * group_count <= usize::MAX,
                repeat_spec(old(self)@, unit@, count as nat, from) == repeat_spec(
                    self@,
                    unit@,
                    (count - i) as nat,
                    cur,
                ),
            decreases count - i,
        {
            cur = self.body(unit, cur, Ghost(group_count), layers);
            i += 1;
        }
        cur
    }

    /// Compiles one copy that may be skipped: see [`optional_spec`].
    fn optional(
        &mut self,
        unit: &Node,
        lazy: bool,
        from: usize,
        exit: usize,
        Ghost(group_count): Ghost<nat>,
        layers: &mut Ghost<Layers>,
    ) -> (end: usize)
        requires
            old(self)@.wf(group_count),
            layered(old(self)@, old(layers)@),
            from < old(self)@.out.len(),
            exit < old(self)@.out.len(),
            old(layers)@.depths[exit as int] == old(layers)@.depths[from as int],
            group_span(unit@) <= group_count,
            2 * group_count <= usize::MAX,
        ensures
            (Built { graph: final(self)@, end }) == optional_spec(
                old(self)@,
                unit@,
                lazy,
                from,
                exit,
            ),
            final(self)@.wf(group_count),
            layered(final(self)@, final(layers)@),
            final(layers)@.keeps(old(layers)@),
            end < final(self)@.out.len(),
            final(layers)@.depths[end as int] == old(layers)@.depths[from as int],
            old(self)@.out.len() <= final(self)@.out.len(),
        decreases unit, 1nat, 0nat,
    {
        if lazy {
            self.link(from, Node::Epsilon, exit, Ghost(group_count), layers);
            self.body(unit, from, Ghost(group_count), layers)
        } else {
            let end = self.body(unit, from, Ghost(group_count), layers);
            self.link(from, Node::Epsilon, exit, Ghost(group_count), layers);
            end
        }
    }

    /// Compiles copies that may be skipped: see [`optionals_spec`].
    fn optionals(
        &mut self,
        unit: &Node,
        lazy: bool,
        count: u64,
        from: usize,
        exit: usize,
        Ghost(group_count): Ghost<nat>,
        layers: &mut Ghost<Layers>,
    ) -> (end: usize)
        requires
            old(self)@.wf(group_count),
            layered(old(self)@, old(layers)@),
            from < old(self)@.out.len(),
            exit < old(self)@.out.len(),
            old(layers)@.depths[exit as int] == old(layers)@.depths[from as int],
            group_span(unit@) <= group_count,
            2 * group_count <= usize::MAX,
        ensures
            (Built { graph: final(self)@, end }) == optionals_spec(
                old(self)@,
                unit@,
                lazy,
                count as nat,
                from,
                exit,
            ),
            final(self)@.wf(group_count),
            layered(final(self)@, final(layers)@),
            final(layers)@.keeps(old(layers)@),
            end < final(self)@.out.len(),
            final(layers)@.depths[end as int] == old(layers)@.depths[from as int],
            old(self)@.out.len() <= final(self)@.out.len(),
        decreases unit, 2nat, 0nat,
    {
        let mut cur = from;
        let mut i: u64 = 0;
        while i < count
            invariant
                i <= count,
                self@.wf(group_count),
                layered(self@, layers@),
                layers@.keeps(old(layers)@),
                layers@.depths[cur as int] == old(layers)@.depths[from as int],
                cur < self@.out.len(),
                exit < self@.out.len(),
                old(self)@.out.len() <= self@.out.len(),
                group_span(unit@) <= group_count,
                2 * group_count <= usize::MAX,
                optionals_spec(old(self)@, unit@, lazy, count as nat, from, exit)
                    == optionals_spec(self@, unit@, lazy, (count - i) as nat, cur, exit),
                exit < old(layers)@.depths.len(),
                old(layers)@.depths[exit as int] == old(layers)@.depths[from as int],
            decreases count - i,
        {
            cur = self.optional(unit, lazy, cur, exit, Ghost(group_count), layers);
            i += 1;
        }
        cur
    }

    /// Compiles any number of copies: see [`star_spec`].
    fn star(
        &mut self,
        unit: &Node,
        lazy: bool,
        head: usize,
        exit: usize,
        Ghost(group_count): Ghost<nat>,
        layers: &mut Ghost<Layers>,
    )
        requires
            old(self)@.wf(group_count),
            layered(old(self)@, old(layers)@),
            head < old(self)@.out.len(),
            exit < old(self)@.out.len(),
            old(layers)@.depths[exit as int] == old(layers)@.depths[head as int],
            group_span(unit@) <= group_count,
            2 * group_count <= usize::MAX,
        ensures
            final(self)@ == star_spec(old(self)@, unit@, lazy, head, exit),
            final(self)@.wf(group_count),
            layered(final(self)@, final(layers)@),
            final(layers)@.keeps(old(layers)@),
            old(self)@.out.len() <= final(self)@.out.len(),
        decreases unit, 1nat, 0nat,
    {
        if lazy {
            self.link(head, Node::Epsilon, exit, Ghost(group_count), layers);
            let end = self.body(unit, head, Ghost(group_count), layers);
            self.link(end, Node::Epsilon, head, Ghost(group_count), layers);
        } else {
            let end = self.body(unit, head, Ghost(group_count), layers);
            self.link(end, Node::Epsilon, head, Ghost(group_count), layers);
            self.link(head, Node::Epsilon, exit, Ghost(group_count), layers);
        }
    }

    /// Compiles the unit under its quantifier: see [`quantify_spec`].
    fn quantify(
        &mut self,
        unit: &Node,
        quantifier: Quantifier,
        from: usize,
        Ghost(group_count): Ghost<nat>,
        layers: &mut Ghost<Layers>,
    ) -> (end: usize)
        requires
            old(self)@.wf(group_count),
            layered(old(self)@, old(layers)@),
            from < old(self)@.out.len(),
            group_span(unit@) <= group_count,
            2 * group_count <= usize::MAX,
        ensures
            (Built { graph: final(self)@, end }) == quantify_spec(
                old(self)@,
                unit@,
                quantifier,
                from,
            ),
            final(self)@.wf(group_count),
            layered(final(self)@, final(layers)@),
            final(layers)@.keeps(old(layers)@),
            end < final(self)@.out.len(),
            final(layers)@.depths[end as int] == old(layers)@.depths[from as int],
            old(self)@.out.len() <= final(self)@.out.len(),
        decreases unit, 3nat, 0nat,
    {
        let ghost depth = layers@.depths[from as int];
        match quantifier {
            Quantifier::Absent => self.body(unit, from, Ghost(group_count), layers),
            Quantifier::ZeroOrOne(lazy) => {
                let exit = self.state(Ghost(group_count), layers, Ghost(depth));
                let end = self.optional(unit, lazy, from, exit, Ghost(group_count), layers);
                self.link(end, Node::Epsilon, exit, Ghost(group_count), layers);
                exit
            },
            Quantifier::ZeroOrMore(lazy) => {
                let exit = self.state(Ghost(group_count), layers, Ghost(depth));
                self.star(unit, lazy, from, exit, Ghost(group_count), layers);
                exit
            },
            Quantifier::OneOrMore(lazy) => {
                let end = self.body(unit, from, Ghost(group_count), layers);
                let exit = self.state(Ghost(group_count), layers, Ghost(depth));
                if lazy {
                    self.link(end, Node::Epsilon, exit, Ghost(group_count), layers);
                    self.link(end, Node::Epsilon, from, Ghost(group_count), layers);
                } else {
                    self.link(end, Node::Epsilon, from, Ghost(group_count), layers);
                    self.link(end, Node::Epsilon, exit, Ghost(group_count), layers);
                }
                exit
            },
            Quantifier::Range(lower, upper, lazy) => {
                let fixed = self.repeat(unit, lower, from, Ghost(group_count), layers);
                match upper {
                    UpperBound::Undefined => fixed,
                    UpperBound::Unbounded => {
                        let exit = self.state(Ghost(group_count), layers, Ghost(depth));
                        self.star(unit, lazy, fixed, exit, Ghost(group_count), layers);
                        exit
                    },
                    UpperBound::Bounded(most) => {
                        let exit = self.state(Ghost(group_count), layers, Ghost(depth));
                        let spare: u64 = if most >= lower {
                            most - lower
                        } else {
                            0
                        };
                        let end = self.optionals(
                            unit,
                            lazy,
                            spare,
                            fixed,
                            exit,
                            Ghost(group_count),
                            layers,
                        );
                        self.link(end, Node::Epsilon, exit, Ghost(group_count), layers);
                        exit
                    },
                }
            },
        }
    }
}

/// A compiled pattern: the automaton that the matching engine runs.
#[derive(Debug)]
pub struct RegexNFA {
    start: usize,
    accept: usize,
    graph: Graph,
    group_count: usize,
    flags: RegexFlags,
}

impl View for RegexNFA {
    type V = Automaton;

    closed spec fn view(&self) -> Automaton {
        Automaton {
            start: self.start,
            accept: self.accept,
            graph: self.graph@,
            group_count: self.group_count,
            flags: self.flags,
        }
    }
}

/// What building an automaton from a pattern yields, as contracts speak of
/// it.
pub open spec fn automaton_view(r: Result<RegexNFA, ParserError>) -> Result<
    Automaton,
    crate::node::ParserErrorView,
> {
    match r {
        Ok(nfa) => Ok(nfa@),
        Err(e) => Err(e@),
    }
}

/// The automaton of a pattern that is parsed under the given options.
pub open spec fn pattern_automaton(pattern: Seq<char>, flags: RegexFlags) -> Result<
    Automaton,
    crate::node::ParserErrorView,
> {
    let parsed = run_parse_spec(pattern, flags);
    match parsed.result {
        Ok(tree) => Ok(compile_spec(tree, parsed.flags)),
        Err(e) => Err(e),
    }
}

/// Whether the layering fits the automaton and no group is open at its
/// start state and at its accept state.
pub open spec fn settled(automaton: Automaton, layers: Layers) -> bool {
    &&& layered(automaton.graph, layers)
    &&& layers.depths[automaton.start as int] == Seq::<usize>::empty()
    &&& layers.depths[automaton.accept as int] == Seq::<usize>::empty()
}

impl RegexNFA {
    #[verifier::type_invariant]
    closed spec fn sound(self) -> bool {
        self@.wf() && exists|layers: Layers| settled(self@, layers)
    }

    /// Every automaton is well-formed, and its groups are nested: this call
    /// does nothing and shows it.
    pub fn well_formed(&self)
        ensures
            self@.wf(),
            exists|layers: Layers| settled(self@, layers),
    {
        proof {
            use_type_invariant(self);
        }
    }

    /// Compiles a syntax tree: see [`compile_spec`]. A tree whose groups
    /// would need more capture slots than a `usize` counts is left out.
    pub fn from_node(tree: &Node, flags: RegexFlags) -> (nfa: RegexNFA)
        requires
            2 * group_span(tree@) <= usize::MAX,
        ensures
            nfa@ == compile_spec(tree@, flags),
            nfa@.wf(),
    {
        let group_count = tree.group_limit();
        let mut graph = Graph::new();
        let mut layers: Ghost<Layers> = Ghost(
            Layers { depths: Seq::empty(), sources: Seq::empty() },
        );
        let ghost none = Seq::<usize>::empty();
        let start = graph.state(Ghost(group_count as nat), &mut layers, Ghost(none));
        let end = graph.build(tree, start, Ghost(group_count as nat), &mut layers);
        let accept = graph.state(Ghost(group_count as nat), &mut layers, Ghost(none));
        graph.link(end, Node::Epsilon, accept, Ghost(group_count as nat), &mut layers);
        let _states = graph.state_count();
        proof {
            let automaton = Automaton { start, accept, graph: graph@, group_count, flags };
            assert(settled(automaton, layers@));
        }
        RegexNFA { start, accept, graph, group_count, flags }
    }

    /// Parses a pattern under the given options and compiles it. The errors
    /// are those of the parser.
    pub fn with_flags(pattern: &str, flags: RegexFlags) -> (r: Result<RegexNFA, ParserError>)
        ensures
            automaton_view(r) == pattern_automaton(pattern@, flags),
            r matches Ok(nfa) ==> nfa@.wf(),
    {
        let mut flags = flags;
        match run_parse(pattern, &mut flags) {
            Ok(tree) => Ok(RegexNFA::from_node(&tree, flags)),
            Err(e) => Err(e),
        }
    }

    /// Parses a pattern and compiles it, with no option set but those that
    /// the pattern switches on itself.
    pub fn new(pattern: &str) -> (r: Result<RegexNFA, ParserError>)
        ensures
            automaton_view(r) == pattern_automaton(pattern@, RegexFlags::spec_no_flag()),
            r matches Ok(nfa) ==> nfa@.wf(),
    {
        RegexNFA::with_flags(pattern, RegexFlags::no_flag())
    }

    /// The number of capture groups of the pattern.
    pub fn group_count(&self) -> (count: usize)
        ensures
            count == self@.group_count,
    {
        self.group_count
    }

    /// The options in force.
    pub fn get_flags(&self) -> (flags: RegexFlags)
        ensures
            flags == self@.flags,
    {
        self.flags
    }

    /// The state where matching starts.
    pub fn start(&self) -> (state: usize)
        ensures
            state == self@.start,
    {
        self.start
    }

    /// The state that ends a match.
    pub fn accept(&self) -> (state: usize)
        ensures
            state == self@.accept,
    {
        self.accept
    }

    /// The number of edges.
    pub fn edge_count(&self) -> (count: usize)
        ensures
            count == self@.graph.edges.len(),
    {
        self.graph.edge_count()
    }

    /// The edge with the given number.
    pub fn edge(&self, number: usize) -> (edge: &Transition)
        requires
            number < self@.graph.edges.len(),
        ensures
            edge@ == self@.graph.edges[number as int],
    {
        self.graph.edge(number)
    }

    /// The numbers of the edges that leave a state, first choice first.
    pub fn out_edges(&self, state: usize) -> (row: &Vec<usize>)
        requires
            state < self@.graph.out.len(),
        ensures
            row@ == self@.graph.out[state as int],
    {
        self.graph.out_edges(state)
    }
}

} // verus!
