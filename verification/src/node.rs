//! The syntax tree of a pattern, the quantifiers, and the parser's errors,
//! each with the mathematical value that contracts speak of.

use vstd::prelude::*;
use std::num::ParseIntError;

verus! {

/// `std::num::ParseIntError`, the error that std gives when a text is not a
/// number of the wanted type.
/// Nothing inside it is visible to proofs.
#[verifier::external_type_specification]
#[verifier::external_body]
pub struct ExParseIntError(ParseIntError);

/// The upper end of a counted repetition.
#[derive(Debug, Hash, Clone, Copy, PartialEq, Eq, Structural)]
pub enum UpperBound {
    /// No comma was written: `{n}`.
    Undefined,
    /// A comma and nothing after it: `{n,}`.
    Unbounded,
    /// A comma and a number: `{n,m}`.
    Bounded(u64),
}

/// How often the item before it may repeat. The flag is true for the lazy
/// form, which prefers fewer repetitions.
#[derive(Debug, Hash, Clone, Copy, PartialEq, Eq, Structural)]
pub enum Quantifier {
    OneOrMore(bool),
    ZeroOrMore(bool),
    ZeroOrOne(bool),
    Range(u64, UpperBound, bool),
    /// No quantifier was written: exactly once.
    Absent,
}

impl Quantifier {
    /// A counted repetition never has an upper end below its lower end.
    pub open spec fn wf(self) -> bool {
        self matches Quantifier::Range(lower, UpperBound::Bounded(upper), _) ==> lower <= upper
    }
}

/// A node of the syntax tree. The leaves also label the automaton's edges.
#[derive(Debug, Hash, PartialEq, Eq)]
pub enum Node {
    Character(char),
    Match(Box<Node>, Quantifier),
    Expression(Vec<Box<Node>>, Option<Box<Node>>),
    Group(Box<Node>, Option<usize>, Quantifier),
    AnyCharacter,
    CharacterGroup(Vec<Box<Node>>, bool),
    CharacterRange(char, char),
    Epsilon,
    GroupLink,
    GroupEntry(usize),
    GroupExit(usize),
    StartOfString,
    EndOfString,
    EmptyString,
    WordBoundary,
    NonWordBoundary,
    StartOfStringOnly,
    EndOfStringOnlyNotNewline,
    EndOfStringOnlyMaybeNewLine,
}

/// The mathematical value of a [`Node`]: the same tree over sequences.
pub enum NodeView {
    Character(char),
    Match(Box<NodeView>, Quantifier),
    Expression(Seq<NodeView>, Option<Box<NodeView>>),
    Group(Box<NodeView>, Option<usize>, Quantifier),
    AnyCharacter,
    CharacterGroup(Seq<NodeView>, bool),
    CharacterRange(char, char),
    Epsilon,
    GroupLink,
    GroupEntry(usize),
    GroupExit(usize),
    StartOfString,
    EndOfString,
    EmptyString,
    WordBoundary,
    NonWordBoundary,
    StartOfStringOnly,
    EndOfStringOnlyNotNewline,
    EndOfStringOnlyMaybeNewLine,
}

/// The values of a list of nodes, in order.
pub open spec fn node_views(items: Seq<Box<Node>>) -> Seq<NodeView>
    decreases items,
{
    if items.len() == 0 {
        Seq::empty()
    } else {
        node_views(items.drop_last()).push(node_view(*items.last()))
    }
}

/// The value of one node.
pub open spec fn node_view(node: Node) -> NodeView
    decreases node,
{
    match node {
        Node::Character(c) => NodeView::Character(c),
        Node::Match(inner, quantifier) => NodeView::Match(Box::new(node_view(*inner)), quantifier),
        Node::Expression(items, alternative) => NodeView::Expression(
            node_views(items@),
            match alternative {
                Some(other) => Some(Box::new(node_view(*other))),
                None => None,
            },
        ),
        Node::Group(inner, index, quantifier) => NodeView::Group(
            Box::new(node_view(*inner)),
            index,
            quantifier,
        ),
        Node::AnyCharacter => NodeView::AnyCharacter,
        Node::CharacterGroup(items, negated) => NodeView::CharacterGroup(
            node_views(items@),
            negated,
        ),
        Node::CharacterRange(low, high) => NodeView::CharacterRange(low, high),
        Node::Epsilon => NodeView::Epsilon,
        Node::GroupLink => NodeView::GroupLink,
        Node::GroupEntry(slot) => NodeView::GroupEntry(slot),
        Node::GroupExit(slot) => NodeView::GroupExit(slot),
        Node::StartOfString => NodeView::StartOfString,
        Node::EndOfString => NodeView::EndOfString,
        Node::EmptyString => NodeView::EmptyString,
        Node::WordBoundary => NodeView::WordBoundary,
        Node::NonWordBoundary => NodeView::NonWordBoundary,
        Node::StartOfStringOnly => NodeView::StartOfStringOnly,
        Node::EndOfStringOnlyNotNewline => NodeView::EndOfStringOnlyNotNewline,
        Node::EndOfStringOnlyMaybeNewLine => NodeView::EndOfStringOnlyMaybeNewLine,
    }
}

impl View for Node {
    type V = NodeView;

    open spec fn view(&self) -> NodeView {
        node_view(*self)
    }
}

/// One more than the largest capture-group number in the tree, or zero when
/// the tree has no capturing group.
pub open spec fn group_span(tree: NodeView) -> nat
    decreases tree,
{
    match tree {
        NodeView::Match(inner, _) => group_span(*inner),
        NodeView::Expression(items, alternative) => {
            let own = group_span_all(items);
            match alternative {
                Some(other) => if own >= group_span(*other) {
                    own
                } else {
                    group_span(*other)
                },
                None => own,
            }
        },
        NodeView::Group(inner, index, _) => {
            let own = group_span(*inner);
            match index {
                Some(number) => if own >= number + 1 {
                    own
                } else {
                    (number + 1) as nat
                },
                None => own,
            }
        },
        _ => 0,
    }
}

/// The largest [`group_span`] among the trees of a list.
pub open spec fn group_span_all(items: Seq<NodeView>) -> nat
    decreases items,
{
    if items.len() == 0 {
        0
    } else {
        let before = group_span_all(items.drop_last());
        if before >= group_span(items.last()) {
            before
        } else {
            group_span(items.last())
        }
    }
}

/// What holds of every tree that the parser builds: a counted repetition
/// has no upper end below its lower end, a character range does not run
/// backwards, a sequence and a character group are not empty, and the nodes
/// that only the automaton uses (epsilon and the group marks) do not occur.
pub open spec fn tree_wf(tree: NodeView) -> bool
    decreases tree,
{
    match tree {
        NodeView::Match(inner, quantifier) => quantifier.wf() && tree_wf(*inner),
        NodeView::Group(inner, _, quantifier) => quantifier.wf() && tree_wf(*inner),
        NodeView::Expression(items, alternative) => items.len() > 0 && trees_wf(items) && (
        match alternative {
            Some(other) => tree_wf(*other),
            None => true,
        }),
        NodeView::CharacterGroup(items, _) => items.len() > 0 && trees_wf(items),
        NodeView::CharacterRange(low, high) => low <= high,
        NodeView::Epsilon => false,
        NodeView::GroupLink => false,
        NodeView::GroupEntry(_) => false,
        NodeView::GroupExit(_) => false,
        _ => true,
    }
}

/// Whether [`tree_wf`] holds of every tree of a list.
pub open spec fn trees_wf(items: Seq<NodeView>) -> bool
    decreases items,
{
    items.len() == 0 || (trees_wf(items.drop_last()) && tree_wf(items.last()))
}

/// A list of well-formed trees is well-formed.
pub proof fn lemma_trees_wf_all(items: Seq<NodeView>)
    requires
        forall|i: int| 0 <= i < items.len() ==> tree_wf(#[trigger] items[i]),
    ensures
        trees_wf(items),
    decreases items.len(),
{
    if items.len() > 0 {
        lemma_trees_wf_all(items.drop_last());
    }
}

/// A list stays well-formed when a well-formed tree is added at its end.
pub proof fn lemma_trees_wf_push(items: Seq<NodeView>, last: NodeView)
    ensures
        trees_wf(items.push(last)) == (trees_wf(items) && tree_wf(last)),
{
    assert(items.push(last).drop_last() =~= items);
}

/// A list stays well-formed when a well-formed tree is put in front of it.
pub proof fn lemma_trees_wf_insert(items: Seq<NodeView>, first: NodeView)
    requires
        tree_wf(first),
        trees_wf(items),
    ensures
        trees_wf(items.insert(0, first)),
    decreases items.len(),
{
    let longer = items.insert(0, first);
    if items.len() == 0 {
        assert(longer.drop_last() =~= Seq::<NodeView>::empty());
        assert(longer.last() == first);
        assert(trees_wf(longer.drop_last()));
    } else {
        lemma_trees_wf_insert(items.drop_last(), first);
        assert(longer.drop_last() =~= items.drop_last().insert(0, first));
        assert(longer.last() == items.last());
    }
}

/// No tree of a list has a larger span than the list.
pub proof fn lemma_group_span_all_bounds(items: Seq<NodeView>, i: int)
    requires
        0 <= i < items.len(),
    ensures
        group_span(items[i]) <= group_span_all(items),
    decreases items.len(),
{
    if i < items.len() - 1 {
        lemma_group_span_all_bounds(items.drop_last(), i);
    }
}

/// Adding a tree at the end of a list raises the list's span to that of the
/// tree, if it was lower.
pub proof fn lemma_group_span_all_push(items: Seq<NodeView>, last: NodeView)
    ensures
        group_span_all(items.push(last)) == if group_span_all(items) >= group_span(last) {
            group_span_all(items)
        } else {
            group_span(last)
        },
{
    assert(items.push(last).drop_last() =~= items);
}

/// Putting a tree without groups in front of a list leaves the list's span
/// as it was.
pub proof fn lemma_group_span_all_insert(items: Seq<NodeView>, first: NodeView)
    requires
        group_span(first) == 0,
    ensures
        group_span_all(items.insert(0, first)) == group_span_all(items),
    decreases items.len(),
{
    let longer = items.insert(0, first);
    if items.len() == 0 {
        assert(longer.drop_last() =~= Seq::<NodeView>::empty());
        assert(longer.last() == first);
        assert(group_span_all(longer.drop_last()) == 0);
    } else {
        lemma_group_span_all_insert(items.drop_last(), first);
        assert(longer.drop_last() =~= items.drop_last().insert(0, first));
        assert(longer.last() == items.last());
    }
}

/// Putting a node in front of a list puts its value in front of the values.
pub proof fn lemma_node_views_insert(items: Seq<Box<Node>>, first: Box<Node>)
    ensures
        node_views(items.insert(0, first)) == node_views(items).insert(0, node_view(*first)),
{
    lemma_node_views(items);
    lemma_node_views(items.insert(0, first));
    assert(node_views(items.insert(0, first)) =~= node_views(items).insert(0, node_view(*first)));
}

/// The list of values has one entry for each node, the value of that node.
pub proof fn lemma_node_views(items: Seq<Box<Node>>)
    ensures
        node_views(items).len() == items.len(),
        forall|i: int| 0 <= i < items.len() ==> #[trigger] node_views(items)[i] == node_view(*items[i]),
    decreases items.len(),
{
    if items.len() > 0 {
        lemma_node_views(items.drop_last());
    }
}

/// Adding a node at the end adds its value at the end.
pub proof fn lemma_node_views_push(items: Seq<Box<Node>>, last: Box<Node>)
    ensures
        node_views(items.push(last)) == node_views(items).push(node_view(*last)),
{
    assert(items.push(last).drop_last() =~= items);
}

impl Node {
    /// The node of one literal character.
    pub fn literal(c: char) -> (node: Node)
        ensures
            node@ == NodeView::Character(c),
            tree_wf(node@),
    {
        Node::Character(c)
    }

    /// The node of the characters from `low` to `high`.
    pub fn range(low: char, high: char) -> (node: Node)
        ensures
            node@ == NodeView::CharacterRange(low, high),
            tree_wf(node@) == (low <= high),
    {
        Node::CharacterRange(low, high)
    }

    /// A match item with its quantifier.
    pub fn quantified(inner: Node, quantifier: Quantifier) -> (node: Node)
        ensures
            node@ == NodeView::Match(Box::new(inner@), quantifier),
            group_span(node@) == group_span(inner@),
            tree_wf(node@) == (quantifier.wf() && tree_wf(inner@)),
    {
        Node::Match(Box::new(inner), quantifier)
    }

    /// A group around an expression, capturing under `index` if there is one.
    pub fn group(inner: Node, index: Option<usize>, quantifier: Quantifier) -> (node: Node)
        ensures
            node@ == NodeView::Group(Box::new(inner@), index, quantifier),
            group_span(node@) == group_span(NodeView::Group(Box::new(inner@), index, quantifier)),
            group_span(node@) >= group_span(inner@),
            index matches Some(number) ==> group_span(node@) >= number + 1,
            group_span(node@) == group_span(inner@) || (index matches Some(number) && group_span(
                node@,
            ) == number + 1),
            tree_wf(node@) == (quantifier.wf() && tree_wf(inner@)),
    {
        Node::Group(Box::new(inner), index, quantifier)
    }

    /// A sequence of items with no alternative.
    pub fn sequence(items: Vec<Box<Node>>) -> (node: Node)
        ensures
            node@ == NodeView::Expression(node_views(items@), None),
            group_span(node@) == group_span_all(node_views(items@)),
            tree_wf(node@) == (node_views(items@).len() > 0 && trees_wf(node_views(items@))),
    {
        Node::Expression(items, None)
    }

    /// A sequence of items, or else the alternative.
    pub fn alternation(items: Vec<Box<Node>>, other: Node) -> (node: Node)
        ensures
            node@ == NodeView::Expression(node_views(items@), Some(Box::new(other@))),
            group_span(node@) >= group_span_all(node_views(items@)),
            group_span(node@) >= group_span(other@),
            group_span(node@) == group_span_all(node_views(items@)) || group_span(node@)
                == group_span(other@),
            tree_wf(node@) == (node_views(items@).len() > 0 && trees_wf(node_views(items@))
                && tree_wf(other@)),
    {
        Node::Expression(items, Some(Box::new(other)))
    }

    /// A character group of the given members.
    pub fn class(items: Vec<Box<Node>>, negated: bool) -> (node: Node)
        ensures
            node@ == NodeView::CharacterGroup(node_views(items@), negated),
            group_span(node@) == 0,
            tree_wf(node@) == (node_views(items@).len() > 0 && trees_wf(node_views(items@))),
    {
        Node::CharacterGroup(items, negated)
    }

    /// The mark that a group is entered, for the given capture slot.
    pub fn group_entry(slot: usize) -> (node: Node)
        ensures
            node@ == NodeView::GroupEntry(slot),
    {
        Node::GroupEntry(slot)
    }

    /// The mark that a group is left, for the given capture slot.
    pub fn group_exit(slot: usize) -> (node: Node)
        ensures
            node@ == NodeView::GroupExit(slot),
    {
        Node::GroupExit(slot)
    }

    /// The largest [`Node::group_limit`] among the nodes of a list.
    pub fn group_limit_all(items: &Vec<Box<Node>>) -> (limit: usize)
        requires
            2 * group_span_all(node_views(items@)) <= usize::MAX,
        ensures
            limit == group_span_all(node_views(items@)),
        decreases items, 0nat,
    {
        let mut limit: usize = 0;
        let mut i: usize = 0;
        proof {
            lemma_node_views(items@);
        }
        while i < items.len()
            invariant
                i <= items.len(),
                2 * group_span_all(node_views(items@)) <= usize::MAX,
                limit == group_span_all(node_views(items@).take(i as int)),
                node_views(items@).len() == items@.len(),
                forall|j: int|
                    0 <= j < items@.len() ==> #[trigger] node_views(items@)[j] == node_view(
                        *items@[j],
                    ),
            decreases items.len() - i,
        {
            proof {
                let values = node_views(items@);
                lemma_group_span_all_bounds(values, i as int);
                assert(values.take(i + 1).drop_last() =~= values.take(i as int));
            }
            let own = items[i].group_limit();
            if own > limit {
                limit = own;
            }
            i += 1;
        }
        proof {
            assert(node_views(items@).take(i as int) =~= node_views(items@));
        }
        limit
    }

    /// One more than the largest capture-group number in the tree: see
    /// [`group_span`]. A tree whose groups would need more capture slots
    /// than a `usize` counts is left out.
    pub fn group_limit(&self) -> (limit: usize)
        requires
            2 * group_span(self@) <= usize::MAX,
        ensures
            limit == group_span(self@),
        decreases self, 1nat,
    {
        match self {
            Node::Match(inner, _) => inner.group_limit(),
            Node::Expression(items, alternative) => {
                let limit = Node::group_limit_all(items);
                match alternative {
                    Some(other) => {
                        let second = other.group_limit();
                        if limit >= second {
                            limit
                        } else {
                            second
                        }
                    },
                    None => limit,
                }
            },
            Node::Group(inner, index, _) => {
                let own = inner.group_limit();
                match index {
                    Some(number) => {
                        if own >= *number + 1 {
                            own
                        } else {
                            *number + 1
                        }
                    },
                    None => own,
                }
            },
            _ => 0,
        }
    }

    /// A copy of the list of nodes, each copied in full.
    pub fn deep_copy_all(items: &Vec<Box<Node>>) -> (r: Vec<Box<Node>>)
        ensures
            node_views(r@) == node_views(items@),
            r@.len() == items@.len(),
        decreases items, 0nat,
    {
        let mut copies: Vec<Box<Node>> = Vec::new();
        let mut i: usize = 0;
        while i < items.len()
            invariant
                i <= items.len(),
                copies@.len() == i,
                node_views(copies@) == node_views(items@.take(i as int)),
            decreases items.len() - i,
        {
            let copy = Box::new(items[i].deep_copy());
            proof {
                lemma_node_views_push(copies@, copy);
                lemma_node_views_push(items@.take(i as int), items@[i as int]);
                assert(items@.take(i as int).push(items@[i as int]) =~= items@.take(i + 1));
            }
            copies.push(copy);
            i += 1;
        }
        proof {
            assert(items@.take(i as int) =~= items@);
        }
        copies
    }

    /// A copy of the whole tree below this node.
    pub fn deep_copy(&self) -> (r: Node)
        ensures
            r@ == self@,
        decreases self, 1nat,
    {
        match self {
            Node::Character(c) => Node::Character(*c),
            Node::Match(inner, quantifier) => Node::Match(Box::new(inner.deep_copy()), *quantifier),
            Node::Expression(items, alternative) => {
                let copies = Node::deep_copy_all(items);
                let other = match alternative {
                    Some(branch) => Some(Box::new(branch.deep_copy())),
                    None => None,
                };
                Node::Expression(copies, other)
            },
            Node::Group(inner, index, quantifier) => Node::Group(
                Box::new(inner.deep_copy()),
                *index,
                *quantifier,
            ),
            Node::AnyCharacter => Node::AnyCharacter,
            Node::CharacterGroup(items, negated) => {
                let copies = Node::deep_copy_all(items);
                Node::CharacterGroup(copies, *negated)
            },
            Node::CharacterRange(low, high) => Node::CharacterRange(*low, *high),
            Node::Epsilon => Node::Epsilon,
            Node::GroupLink => Node::GroupLink,
            Node::GroupEntry(slot) => Node::GroupEntry(*slot),
            Node::GroupExit(slot) => Node::GroupExit(*slot),
            Node::StartOfString => Node::StartOfString,
            Node::EndOfString => Node::EndOfString,
            Node::EmptyString => Node::EmptyString,
            Node::WordBoundary => Node::WordBoundary,
            Node::NonWordBoundary => Node::NonWordBoundary,
            Node::StartOfStringOnly => Node::StartOfStringOnly,
            Node::EndOfStringOnlyNotNewline => Node::EndOfStringOnlyNotNewline,
            Node::EndOfStringOnlyMaybeNewLine => Node::EndOfStringOnlyMaybeNewLine,
        }
    }
}

impl Clone for Node {
    fn clone(&self) -> (r: Node)
        ensures
            r@ == self@,
    {
        self.deep_copy()
    }
}

/// Why a pattern could not be parsed. Where a variant carries a text, it is
/// the part of the pattern that had not been read when the error arose.
#[derive(Debug, PartialEq)]
pub enum ParserError {
    UnexpectedToken(Box<String>, char),
    UnexexpectedEOF,
    UnableToParseChar(Box<String>),
    CantParseCharGroup(Box<String>),
    UnrecognizedAnchor(Box<String>, char),
    UnrecognizedModifier(Box<String>, char),
    InvalidExpression(Box<String>),
    InvalidStartToCharacterClass(Box<String>),
    SuffixRemaining(Box<String>),
    UnrecognizedQuantifier(char),
    InvalidRangeQuantifier(u64, u64),
    CantParseRangeBound(ParseIntError),
    InvalidCharacterRange(char, char),
}

/// The mathematical value of a [`ParserError`]: texts as sequences of
/// characters.
pub enum ParserErrorView {
    UnexpectedToken(Seq<char>, char),
    UnexexpectedEOF,
    UnableToParseChar(Seq<char>),
    CantParseCharGroup(Seq<char>),
    UnrecognizedAnchor(Seq<char>, char),
    UnrecognizedModifier(Seq<char>, char),
    InvalidExpression(Seq<char>),
    InvalidStartToCharacterClass(Seq<char>),
    SuffixRemaining(Seq<char>),
    UnrecognizedQuantifier(char),
    InvalidRangeQuantifier(u64, u64),
    CantParseRangeBound(ParseIntError),
    InvalidCharacterRange(char, char),
}

impl View for ParserError {
    type V = ParserErrorView;

    open spec fn view(&self) -> ParserErrorView {
        match self {
            ParserError::UnexpectedToken(rest, expected) => ParserErrorView::UnexpectedToken(
                rest@,
                *expected,
            ),
            ParserError::UnexexpectedEOF => ParserErrorView::UnexexpectedEOF,
            ParserError::UnableToParseChar(rest) => ParserErrorView::UnableToParseChar(rest@),
            ParserError::CantParseCharGroup(rest) => ParserErrorView::CantParseCharGroup(rest@),
            ParserError::UnrecognizedAnchor(rest, found) => ParserErrorView::UnrecognizedAnchor(
                rest@,
                *found,
            ),
            ParserError::UnrecognizedModifier(rest, found) => ParserErrorView::UnrecognizedModifier(
                rest@,
                *found,
            ),
            ParserError::InvalidExpression(rest) => ParserErrorView::InvalidExpression(rest@),
            ParserError::InvalidStartToCharacterClass(rest) =>
                ParserErrorView::InvalidStartToCharacterClass(rest@),
            ParserError::SuffixRemaining(rest) => ParserErrorView::SuffixRemaining(rest@),
            ParserError::UnrecognizedQuantifier(found) => ParserErrorView::UnrecognizedQuantifier(
                *found,
            ),
            ParserError::InvalidRangeQuantifier(lower, upper) =>
                ParserErrorView::InvalidRangeQuantifier(*lower, *upper),
            ParserError::CantParseRangeBound(cause) => ParserErrorView::CantParseRangeBound(*cause),
            ParserError::InvalidCharacterRange(low, high) => ParserErrorView::InvalidCharacterRange(
                *low,
                *high,
            ),
        }
    }
}

} // verus!
