//! The subject text, the cursor that walks it, and the test whether an edge
//! label lets a cursor pass.

use vstd::prelude::*;
use vstd::std_specs::iter::IteratorSpec;
use vstd::string::StrSliceExecFns;
use crate::node::{lemma_node_views_push, node_views, Node, NodeView};
use crate::utils::RegexFlags;

verus! {

/// The mathematical value of a [`Cursor`].
pub struct CursorView {
    pub position: usize,
    pub groups: Seq<Option<usize>>,
}

/// A place in the text and what the capture groups hold there: for group
/// `g`, slot `2g` is the offset where it was entered and slot `2g + 1` the
/// offset where it was left.
#[derive(Debug)]
pub struct Cursor {
    pub position: usize,
    pub groups: Vec<Option<usize>>,
}

impl View for Cursor {
    type V = CursorView;

    open spec fn view(&self) -> CursorView {
        CursorView { position: self.position, groups: self.groups@ }
    }
}

/// The mathematical value of a [`Context`].
pub struct ContextView {
    pub text: Seq<char>,
    pub flags: RegexFlags,
}

/// The text that is searched, as characters, and the options in force.
#[derive(Debug, Hash)]
pub struct Context {
    pub text: Vec<char>,
    pub flags: RegexFlags,
}

impl View for Context {
    type V = ContextView;

    open spec fn view(&self) -> ContextView {
        ContextView { text: self.text@, flags: self.flags }
    }
}

impl Context {
    pub fn new(text: Vec<char>) -> (context: Context)
        ensures
            context@ == (ContextView { text: text@, flags: RegexFlags::spec_no_flag() }),
    {
        Context { text: text, flags: RegexFlags::no_flag() }
    }

    pub fn new_with_flags(text: Vec<char>, flags: RegexFlags) -> (context: Context)
        ensures
            context@ == (ContextView { text: text@, flags }),
    {
        Context { text: text, flags: flags }
    }
}

/// Whether a node can label an edge: every node but the three that have
/// nodes below them to be compiled.
pub open spec fn is_label(node: NodeView) -> bool {
    !(node is Match || node is Expression || node is Group)
}

/// Whether a label takes one character of the text when it is passed.
pub open spec fn consumes(label: NodeView) -> bool {
    label is Character || label is AnyCharacter || label is CharacterGroup
        || label is CharacterRange
}

/// The number of characters that passing a label takes.
pub open spec fn increment_of(label: NodeView) -> nat {
    if consumes(label) {
        1
    } else {
        0
    }
}

/// The lower-case form of an ASCII capital; any other character is itself.
pub open spec fn fold_case(c: char) -> char {
    if 'A' <= c && c <= 'Z' {
        ((c as u8 + 32) as u8) as char
    } else {
        c
    }
}

/// The capital of an ASCII lower-case letter; any other character is itself.
pub open spec fn raise_case(c: char) -> char {
    if 'a' <= c && c <= 'z' {
        ((c as u8 - 32) as u8) as char
    } else {
        c
    }
}

/// Whether two characters are the same, or differ only in case when case is
/// ignored.
pub open spec fn same_char(c: char, d: char, ignore_case: bool) -> bool {
    c == d || (ignore_case && fold_case(c) == fold_case(d))
}

/// Whether a character lies in a range, or one of its two cases does when
/// case is ignored.
pub open spec fn in_range(c: char, low: char, high: char, ignore_case: bool) -> bool {
    (low <= c && c <= high) || (ignore_case && ((low <= fold_case(c) && fold_case(c) <= high) || (
    low <= raise_case(c) && raise_case(c) <= high)))
}

/// Whether a member of a character group takes the character.
pub open spec fn member_accepts(member: NodeView, c: char, ignore_case: bool) -> bool
    decreases member,
{
    match member {
        NodeView::Character(d) => same_char(c, d, ignore_case),
        NodeView::CharacterRange(low, high) => in_range(c, low, high, ignore_case),
        NodeView::CharacterGroup(items, negated) => any_member_accepts(items, c, ignore_case)
            != negated,
        NodeView::AnyCharacter => true,
        _ => false,
    }
}

/// Whether one of the members takes the character.
pub open spec fn any_member_accepts(items: Seq<NodeView>, c: char, ignore_case: bool) -> bool
    decreases items,
{
    if items.len() == 0 {
        false
    } else {
        any_member_accepts(items.drop_last(), c, ignore_case) || member_accepts(
            items.last(),
            c,
            ignore_case,
        )
    }
}

/// Whether the character counts as part of a word: it is in the class that
/// `\w` stands for.
pub open spec fn is_word_char(c: char) -> bool {
    ('0' <= c && c <= '9') || ('A' <= c && c <= 'z') || c == '-'
}

/// Whether a word character stands at the place, which may be outside the
/// text.
pub open spec fn word_at(text: Seq<char>, place: int) -> bool {
    0 <= place < text.len() && is_word_char(text[place])
}

/// Whether a label lets a cursor at `position` pass. A label that consumes
/// needs a character there that it takes; an anchor needs its place; a group
/// mark always passes. Epsilon does not pass by this test: the engine lets it
/// through on its own account.
pub open spec fn label_accepts(label: NodeView, position: usize, context: ContextView) -> bool {
    let text = context.text;
    let ignore_case = context.flags.spec_contains(RegexFlags::spec_ignore_case());
    let multiline = context.flags.spec_contains(RegexFlags::spec_multiline());
    let dot_all = context.flags.spec_contains(RegexFlags::spec_dot_all());
    match label {
        NodeView::Character(_) | NodeView::CharacterRange(_, _) | NodeView::CharacterGroup(_, _) =>
            position < text.len() && member_accepts(label, text[position as int], ignore_case),
        NodeView::AnyCharacter => position < text.len() && (dot_all || text[position as int]
            != '\n'),
        NodeView::EmptyString => position == 0,
        NodeView::GroupEntry(_) => true,
        NodeView::GroupExit(_) => true,
        NodeView::WordBoundary => word_at(text, position - 1) != word_at(text, position as int),
        NodeView::NonWordBoundary => word_at(text, position - 1) == word_at(text, position as int),
        NodeView::StartOfString => position == 0 || (multiline && position <= text.len()
            && text[position - 1] == '\n'),
        NodeView::EndOfString => position == text.len() || (multiline && position < text.len()
            && text[position as int] == '\n'),
        NodeView::StartOfStringOnly => position == 0,
        NodeView::EndOfStringOnlyNotNewline => position >= text.len(),
        NodeView::EndOfStringOnlyMaybeNewLine => position >= text.len() || (position + 1
            == text.len() && text[position as int] == '\n'),
        _ => false,
    }
}

/// The cursor after passing a label: a group mark writes the position into
/// its slot, a consuming label moves one character on, any other label
/// changes nothing.
pub open spec fn cursor_update(cursor: CursorView, label: NodeView) -> CursorView {
    match label {
        NodeView::GroupEntry(slot) => CursorView {
            position: cursor.position,
            groups: if slot < cursor.groups.len() {
                cursor.groups.update(slot as int, Some(cursor.position))
            } else {
                cursor.groups
            },
        },
        NodeView::GroupExit(slot) => CursorView {
            position: cursor.position,
            groups: if slot < cursor.groups.len() {
                cursor.groups.update(slot as int, Some(cursor.position))
            } else {
                cursor.groups
            },
        },
        _ => CursorView {
            position: (cursor.position + increment_of(label)) as usize,
            groups: cursor.groups,
        },
    }
}

/// Tests [`fold_case`]'s equality on two characters.
fn same_char_exec(c: char, d: char, ignore_case: bool) -> (r: bool)
    ensures
        r == same_char(c, d, ignore_case),
{
    c == d || (ignore_case && lower(c) == lower(d))
}

/// Computes [`fold_case`].
pub fn lower(c: char) -> (r: char)
    ensures
        r == fold_case(c),
{
    if 'A' <= c && c <= 'Z' {
        ((c as u8) + 32u8) as char
    } else {
        c
    }
}

/// Computes [`raise_case`].
pub fn upper(c: char) -> (r: char)
    ensures
        r == raise_case(c),
{
    if 'a' <= c && c <= 'z' {
        ((c as u8) - 32u8) as char
    } else {
        c
    }
}

fn in_range_exec(c: char, low: char, high: char, ignore_case: bool) -> (r: bool)
    ensures
        r == in_range(c, low, high, ignore_case),
{
    if low <= c && c <= high {
        true
    } else if ignore_case {
        let folded = lower(c);
        let raised = upper(c);
        (low <= folded && folded <= high) || (low <= raised && raised <= high)
    } else {
        false
    }
}

/// Tests [`is_word_char`].
pub fn word_char(c: char) -> (r: bool)
    ensures
        r == is_word_char(c),
{
    ('0' <= c && c <= '9') || ('A' <= c && c <= 'z') || c == '-'
}

fn word_at_exec(text: &Vec<char>, place: usize) -> (r: bool)
    ensures
        r == word_at(text@, place as int),
{
    place < text.len() && word_char(text[place])
}

impl Node {
    /// Whether the node is the epsilon label.
    pub fn is_epsilon(&self) -> (r: bool)
        ensures
            r == (self@ is Epsilon),
    {
        match self {
            Node::Epsilon => true,
            _ => false,
        }
    }

    /// Whether this member of a character group takes the character.
    pub fn member_takes(&self, c: char, ignore_case: bool) -> (r: bool)
        ensures
            r == member_accepts(self@, c, ignore_case),
        decreases self, 1nat,
    {
        match self {
            Node::Character(d) => same_char_exec(c, *d, ignore_case),
            Node::CharacterRange(low, high) => in_range_exec(c, *low, *high, ignore_case),
            Node::CharacterGroup(items, negated) => Node::any_member_takes(items, c, ignore_case)
                != *negated,
            Node::AnyCharacter => true,
            _ => false,
        }
    }

    /// Whether one of the members takes the character.
    pub fn any_member_takes(items: &Vec<Box<Node>>, c: char, ignore_case: bool) -> (r: bool)
        ensures
            r == any_member_accepts(node_views(items@), c, ignore_case),
        decreases items, 0nat,
    {
        let mut found = false;
        let mut i: usize = 0;
        while i < items.len()
            invariant
                i <= items.len(),
                found == any_member_accepts(node_views(items@.take(i as int)), c, ignore_case),
            decreases items.len() - i,
        {
            let takes = items[i].member_takes(c, ignore_case);
            proof {
                let before = items@.take(i as int);
                assert(before.push(items@[i as int]) =~= items@.take(i + 1));
                lemma_node_views_push(before, items@[i as int]);
                let values = node_views(before);
                assert(values.push(items@[i as int]@).drop_last() =~= values);
            }
            found = found || takes;
            i += 1;
        }
        proof {
            assert(items@.take(i as int) =~= items@);
        }
        found
    }

    /// Whether this label lets the cursor pass: see [`label_accepts`]. A node
    /// that cannot label an edge is left out.
    pub fn accepts(&self, cursor: &Cursor, context: &Context) -> (r: bool)
        requires
            is_label(self@),
        ensures
            r == label_accepts(self@, cursor.position, context@),
    {
        let position = cursor.position;
        let length = context.text.len();
        let ignore_case = context.flags.contains(RegexFlags::ignore_case());
        match self {
            Node::Character(_) | Node::CharacterRange(_, _) | Node::CharacterGroup(_, _) => {
                position < length && self.member_takes(context.text[position], ignore_case)
            },
            Node::AnyCharacter => {
                position < length && (context.flags.contains(RegexFlags::dot_all())
                    || context.text[position] != '\n')
            },
            Node::EmptyString => position == 0,
            Node::GroupEntry(_) => true,
            Node::GroupExit(_) => true,
            Node::WordBoundary => {
                let before = position > 0 && word_at_exec(&context.text, position - 1);
                before != word_at_exec(&context.text, position)
            },
            Node::NonWordBoundary => {
                let before = position > 0 && word_at_exec(&context.text, position - 1);
                before == word_at_exec(&context.text, position)
            },
            Node::StartOfString => {
                position == 0 || (context.flags.contains(RegexFlags::multiline()) && position
                    <= length && context.text[position - 1] == '\n')
            },
            Node::EndOfString => {
                position == length || (context.flags.contains(RegexFlags::multiline()) && position
                    < length && context.text[position] == '\n')
            },
            Node::StartOfStringOnly => position == 0,
            Node::EndOfStringOnlyNotNewline => position >= length,
            Node::EndOfStringOnlyMaybeNewLine => {
                position >= length || (position + 1 == length && context.text[position] == '\n')
            },
            Node::Epsilon => false,
            Node::GroupLink => false,
            _ => false,
        }
    }

    /// The number of characters that passing this label takes. A node that
    /// cannot label an edge is left out.
    pub fn increment(&self) -> (r: usize)
        requires
            is_label(self@),
        ensures
            r == increment_of(self@),
    {
        match self {
            Node::Character(_) | Node::AnyCharacter | Node::CharacterGroup(_, _)
            | Node::CharacterRange(_, _) => 1,
            _ => 0,
        }
    }
}

impl Cursor {
    /// A cursor at `position` with two empty slots for each of `n_groups`
    /// groups.
    pub fn new(position: usize, n_groups: usize) -> (cursor: Cursor)
        requires
            n_groups * 2 <= usize::MAX,
        ensures
            cursor.position == position,
            cursor.groups@ == Seq::new((n_groups * 2) as nat, |i: int| None::<usize>),
    {
        let mut groups: Vec<Option<usize>> = Vec::new();
        let mut i: usize = 0;
        while i < n_groups * 2
            invariant
                n_groups * 2 <= usize::MAX,
                i <= n_groups * 2,
                groups@ == Seq::new(i as nat, |i: int| None::<usize>),
            decreases n_groups * 2 - i,
        {
            groups.push(None);
            i += 1;
            proof {
                assert(groups@ =~= Seq::new(i as nat, |i: int| None::<usize>));
            }
        }
        Cursor { position: position, groups: groups }
    }

    /// A second cursor with the same position and slots.
    pub fn duplicate(&self) -> (copy: Cursor)
        ensures
            copy@ == self@,
    {
        Cursor { position: self.position, groups: self.copy_groups() }
    }

    /// A copy of the slots.
    fn copy_groups(&self) -> (copy: Vec<Option<usize>>)
        ensures
            copy@ == self.groups@,
    {
        let mut copy: Vec<Option<usize>> = Vec::new();
        let mut i: usize = 0;
        while i < self.groups.len()
            invariant
                i <= self.groups.len(),
                copy@ == self.groups@.take(i as int),
            decreases self.groups.len() - i,
        {
            copy.push(self.groups[i]);
            i += 1;
            proof {
                assert(copy@ =~= self.groups@.take(i as int));
            }
        }
        proof {
            assert(self.groups@.take(i as int) =~= self.groups@);
        }
        copy
    }

    /// The cursor after passing the label: see [`cursor_update`]. This
    /// cursor stays as it is. Left out are a node that cannot label an edge,
    /// a group mark whose slot this cursor does not have, and a step beyond
    /// the largest offset.
    pub fn advance(&self, label: &Node) -> (next: Cursor)
        requires
            is_label(label@),
            label@ matches NodeView::GroupEntry(slot) ==> slot < self.groups@.len(),
            label@ matches NodeView::GroupExit(slot) ==> slot < self.groups@.len(),
            self.position + increment_of(label@) <= usize::MAX,
        ensures
            next@ == cursor_update(self@, label@),
    {
        match label {
            Node::GroupEntry(index) => {
                let mut copy = self.copy_groups();
                copy.set(*index, Some(self.position));
                Cursor { position: self.position, groups: copy }
            },
            Node::GroupExit(index) => {
                let mut copy = self.copy_groups();
                copy.set(*index, Some(self.position));
                Cursor { position: self.position, groups: copy }
            },
            _ => Cursor {
                position: self.position + label.increment(),
                groups: self.copy_groups(),
            },
        }
    }

    /// As [`Cursor::advance`], on a label that is handed over.
    pub fn update(&self, node: Node) -> (next: Cursor)
        requires
            is_label(node@),
            node@ matches NodeView::GroupEntry(slot) ==> slot < self.groups@.len(),
            node@ matches NodeView::GroupExit(slot) ==> slot < self.groups@.len(),
            self.position + increment_of(node@) <= usize::MAX,
        ensures
            next@ == cursor_update(self@, node@),
    {
        self.advance(&node)
    }
}

/// The characters of a text, in order.
pub fn characters(text: &str) -> (chars: Vec<char>)
    ensures
        chars@ == text@,
{
    broadcast use vstd::string::axiom_spec_iter;

    let mut chars: Vec<char> = Vec::new();
    for c in iter: text.chars()
        invariant
            chars@ =~= iter.seq().take(iter.index() as int),
            iter.seq() == text@,
    {
        chars.push(c);
    }
    chars
}

/// The mathematical value of a [`Match`].
pub struct MatchView {
    pub start: usize,
    pub end: usize,
    pub text: Seq<char>,
    pub captures: Seq<Option<usize>>,
}

/// Whether the capture pair that starts at `slot` is in order for a cursor
/// at whose state the groups of `depth` are open, each named by its entry
/// slot: an open group has recorded its entry, at or before the position;
/// of any other group, an exit is recorded only behind an entry.
pub open spec fn pair_settled(
    groups: Seq<Option<usize>>,
    depth: Seq<usize>,
    position: usize,
    slot: int,
) -> bool {
    if depth.contains(slot as usize) {
        groups[slot] matches Some(entry) && entry <= position
    } else {
        groups[slot + 1] matches Some(exit) ==> (groups[slot] matches Some(entry) && entry <= exit)
    }
}

/// Whether [`pair_settled`] holds of every capture pair.
pub open spec fn pairs_settled(groups: Seq<Option<usize>>, depth: Seq<usize>, position: usize) -> bool {
    forall|slot: int|
        0 <= slot && slot + 1 < groups.len() && slot % 2 == 0 ==> #[trigger] pair_settled(
            groups,
            depth,
            position,
            slot,
        )
}

/// Whether every capture pair is in order: where the exit of a group is
/// recorded, so is its entry, and the entry is not behind the exit.
pub open spec fn pairs_ordered(groups: Seq<Option<usize>>) -> bool {
    pairs_settled(groups, Seq::empty(), 0)
}

/// What is in a list with one more item at its end.
pub proof fn lemma_push_contains(list: Seq<usize>, last: usize, item: usize)
    ensures
        list.push(last).contains(item) <==> list.contains(item) || last == item,
{
    let longer = list.push(last);
    if list.contains(item) {
        let i = choose|i: int| 0 <= i < list.len() && list[i] == item;
        assert(longer[i] == item);
    }
    if last == item {
        assert(longer[list.len() as int] == item);
    }
    if longer.contains(item) {
        let i = choose|i: int| 0 <= i < longer.len() && longer[i] == item;
        if i < list.len() {
            assert(list[i] == item);
        }
    }
}

/// Passing the mark of an entry keeps the capture pairs in order.
pub proof fn lemma_pairs_entry(cursor: CursorView, mark: usize, before: Seq<usize>)
    requires
        pairs_settled(cursor.groups, before, cursor.position),
        mark % 2 == 0,
        cursor.groups.len() <= usize::MAX,
    ensures
        pairs_settled(
            cursor_update(cursor, NodeView::GroupEntry(mark)).groups,
            before.push(mark),
            cursor.position,
        ),
{
    let next = cursor_update(cursor, NodeView::GroupEntry(mark));
    let after = before.push(mark);
    assert forall|slot: int|
        0 <= slot && slot + 1 < next.groups.len() && slot % 2 == 0 implies #[trigger] pair_settled(
        next.groups,
        after,
        cursor.position,
        slot,
    ) by {
        assert(pair_settled(cursor.groups, before, cursor.position, slot));
        lemma_push_contains(before, mark, slot as usize);
        if slot == mark {
            assert(next.groups[slot] == Some(cursor.position));
        } else {
            assert(next.groups[slot] == cursor.groups[slot]);
            assert(next.groups[slot + 1] == cursor.groups[slot + 1]);
        }
    }
}

/// Passing the mark of an exit keeps the capture pairs in order.
pub proof fn lemma_pairs_exit(cursor: CursorView, mark: usize, after: Seq<usize>)
    requires
        mark % 2 == 1,
        pairs_settled(cursor.groups, after.push((mark - 1) as usize), cursor.position),
        cursor.groups.len() <= usize::MAX,
    ensures
        pairs_settled(
            cursor_update(cursor, NodeView::GroupExit(mark)).groups,
            after,
            cursor.position,
        ),
{
    let next = cursor_update(cursor, NodeView::GroupExit(mark));
    let own = (mark - 1) as usize;
    let before = after.push(own);
    assert forall|slot: int|
        0 <= slot && slot + 1 < next.groups.len() && slot % 2 == 0 implies #[trigger] pair_settled(
        next.groups,
        after,
        cursor.position,
        slot,
    ) by {
        assert(pair_settled(cursor.groups, before, cursor.position, slot));
        lemma_push_contains(after, own, slot as usize);
        assert(next.groups[slot] == cursor.groups[slot]);
        if slot == own {
            assert(next.groups[slot + 1] == Some(cursor.position));
        } else {
            assert(next.groups[slot + 1] == cursor.groups[slot + 1]);
        }
    }
}

/// Passing an edge that is no group mark keeps the capture pairs in order.
pub proof fn lemma_pairs_other(cursor: CursorView, label: NodeView, depth: Seq<usize>)
    requires
        pairs_settled(cursor.groups, depth, cursor.position),
        !(label is GroupEntry),
        !(label is GroupExit),
        cursor.position + increment_of(label) <= usize::MAX,
    ensures
        pairs_settled(
            cursor_update(cursor, label).groups,
            depth,
            cursor_update(cursor, label).position,
        ),
{
    let next = cursor_update(cursor, label);
    assert forall|slot: int|
        0 <= slot && slot + 1 < next.groups.len() && slot % 2 == 0 implies #[trigger] pair_settled(
        next.groups,
        depth,
        next.position,
        slot,
    ) by {
        assert(pair_settled(cursor.groups, depth, cursor.position, slot));
    }
}

/// Whether every offset that the groups of a match recorded lies in the
/// span of the match.
pub open spec fn captures_within(found: MatchView) -> bool {
    forall|i: int|
        0 <= i < found.captures.len() ==> (#[trigger] found.captures[i] matches Some(at)
            ==> found.start <= at <= found.end)
}

/// The part of the text from one offset to another, where the two are in
/// order and in the text.
pub open spec fn slice_text(text: Seq<char>, from: usize, to: usize) -> Option<Seq<char>> {
    if from <= to && to <= text.len() {
        Some(text.subrange(from as int, to as int))
    } else {
        None
    }
}

/// The text that the capture pair number `pair` holds: none if the match
/// has no such pair or one of its two offsets is absent.
pub open spec fn capture_text(found: MatchView, pair: int) -> Option<Seq<char>> {
    if 0 <= pair && 2 * pair + 1 < found.captures.len() {
        match (found.captures[2 * pair], found.captures[2 * pair + 1]) {
            (Some(from), Some(to)) => slice_text(found.text, from, to),
            _ => None,
        }
    } else {
        None
    }
}

/// The text of a group: group 0 is the whole match, group `n` the `n`-th
/// capturing group of the pattern.
pub open spec fn group_text(found: MatchView, index: int) -> Option<Seq<char>> {
    if index == 0 {
        slice_text(found.text, found.start, found.end)
    } else {
        capture_text(found, index - 1)
    }
}

/// The mathematical value of an optional text.
pub open spec fn text_view(text: Option<String>) -> Option<Seq<char>> {
    match text {
        Some(s) => Some(s@),
        None => None,
    }
}

/// One match: where it starts and ends in the text, in characters, and the
/// offsets that its capture groups recorded.
#[derive(Debug)]
pub struct Match<'a> {
    start: usize,
    end: usize,
    text: &'a str,
    captured_groups: Vec<Option<usize>>,
}

impl<'a> View for Match<'a> {
    type V = MatchView;

    closed spec fn view(&self) -> MatchView {
        MatchView {
            start: self.start,
            end: self.end,
            text: self.text@,
            captures: self.captured_groups@,
        }
    }
}

impl<'a> Match<'a> {
    pub fn new(start: usize, end: usize, text: &'a str, captured_groups: Vec<Option<usize>>) -> (found:
        Self)
        ensures
            found@ == (MatchView { start, end, text: text@, captures: captured_groups@ }),
    {
        Match { start, end, text, captured_groups }
    }

    /// The part of the text between two offsets: see [`slice_text`].
    fn slice(&self, from: usize, to: usize) -> (part: Option<String>)
        ensures
            text_view(part) == slice_text(self@.text, from, to),
    {
        if from <= to && to <= self.text.unicode_len() {
            Some(self.text.substring_char(from, to).to_owned())
        } else {
            None
        }
    }

    /// The text of capture pair number `group_index`, counted from zero:
    /// see [`capture_text`].
    pub fn to_string(&self, group_index: usize) -> (part: Option<String>)
        ensures
            text_view(part) == capture_text(self@, group_index as int),
    {
        if group_index < self.captured_groups.len() / 2 {
            let some_frm = self.captured_groups[group_index * 2];
            let some_to = self.captured_groups[group_index * 2 + 1];
            if let Some(frm) = some_frm {
                if let Some(to) = some_to {
                    return self.slice(frm, to);
                }
            }
        }
        None
    }

    /// The offsets of the first character of the match and of the first
    /// character after it.
    pub fn span(&self) -> (span: (usize, usize))
        ensures
            span == (self@.start, self@.end),
    {
        (self.start, self.end)
    }

    /// The texts of the capturing groups, in the order of their numbers; the
    /// whole match is not among them.
    pub fn groups(&self) -> (texts: Vec<Option<String>>)
        ensures
            texts@.len() == self@.captures.len() / 2,
            forall|i: int|
                0 <= i < texts@.len() ==> text_view(#[trigger] texts@[i]) == capture_text(self@, i),
    {
        let count = self.captured_groups.len() / 2;
        let mut texts: Vec<Option<String>> = Vec::new();
        let mut i: usize = 0;
        while i < count
            invariant
                i <= count,
                count == self@.captures.len() / 2,
                texts@.len() == i,
                forall|j: int|
                    0 <= j < i ==> text_view(#[trigger] texts@[j]) == capture_text(self@, j),
            decreases count - i,
        {
            texts.push(self.to_string(i));
            i += 1;
        }
        texts
    }

    /// The text of a group: see [`group_text`].
    pub fn group(&self, index: usize) -> (part: Option<String>)
        ensures
            text_view(part) == group_text(self@, index as int),
    {
        if index == 0 {
            self.slice(self.start, self.end)
        } else {
            self.to_string(index - 1)
        }
    }
}

/// A group whose entry and exit are both recorded has a text, if the
/// capture pairs of the match are in order and lie in its span: the part of
/// the text between the two offsets.
pub proof fn lemma_recorded_group_has_a_text(found: MatchView, pair: int)
    requires
        pairs_ordered(found.captures),
        captures_within(found),
        found.end <= found.text.len(),
        found.captures.len() <= usize::MAX,
        0 <= pair && 2 * pair + 1 < found.captures.len(),
        found.captures[2 * pair] is Some,
        found.captures[2 * pair + 1] is Some,
    ensures
        capture_text(found, pair) == Some(
            found.text.subrange(
                found.captures[2 * pair]->Some_0 as int,
                found.captures[2 * pair + 1]->Some_0 as int,
            ),
        ),
{
    assert(pair_settled(found.captures, Seq::empty(), 0, 2 * pair));
}

} // verus!
