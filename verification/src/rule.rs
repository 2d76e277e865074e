//! What rules share: findings, and the labels of the nodes being visited.
//!
//! A rule walks a syntax tree and records findings. [`BaseRule`] keeps the
//! bookkeeping that every rule needs: the findings recorded so far, and a
//! stack with one label for each node between the root of the tree and the
//! node under visit.

use vstd::prelude::*;
use vstd::std_specs::iter::IteratorSpec;
use vstd::string::StringExecFns;

use crate::chars::white_space;
use crate::syntax::{debug_text, item_debug, ITEM_MARK};

verus! {

/// Ends a styled stretch of terminal output.
pub const CLR_CLEAR: &'static str = "\x1b[0m";

/// Starts a stretch of emphasised terminal output.
pub const CLR_EMPH: &'static str = "\x1b[93m";

/// Starts a stretch of terminal output that reports something found.
pub const CLR_FIND: &'static str = "\x1b[91m";

/// What stands between two labels of a trail.
pub const ARROW: &'static str = " -> ";

/// What a dump starts with, after the styling.
pub const DUMP_MARK: &'static str = "[+]: ";

/// What parts the first line of a dump from the node's debug text.
pub const LINE_BREAK: &'static str = "\n";

/// What the message of a finding about a function starts with.
pub const FOUND_FUNCTION: &'static str = "Found function: ";

/// One observation about a source file: a message and the lines it is about,
/// counted from 1.
#[derive(Debug)]
pub struct ScanFinding {
    pub text: String,
    pub start: usize,
    pub end: usize,
}

impl ScanFinding {
    /// Whether the finding names a proper range of lines, as every finding
    /// should: the first line is at least 1 and the last is not before the
    /// first.
    pub open spec fn is_span(&self) -> bool {
        1 <= self.start <= self.end
    }
}

impl Clone for ScanFinding {
    fn clone(&self) -> (copy: Self)
        ensures
            copy == *self,
    {
        ScanFinding { text: self.text.clone(), start: self.start, end: self.end }
    }
}

impl Default for ScanFinding {
    fn default() -> (finding: Self)
        ensures
            finding.text@ == Seq::<char>::empty(),
            finding.start == 0,
            finding.end == 0,
    {
        ScanFinding { text: String::new(), start: 0, end: 0 }
    }
}

/// The drain of a rule: hands over the findings recorded since the last
/// drain. Each rule implements it, most by passing the call on to its
/// [`BaseRule`].
pub trait Findings {
    fn consume_findings(&mut self) -> Vec<ScanFinding>;
}

/// The entry point of a rule: visits the syntax tree of one file, recording
/// findings on the way.
pub trait Inspect {
    fn inspect(&mut self, tree: &syn::File);
}

/// The state that rules share.
#[derive(Debug)]
pub struct BaseRule {
    /// The findings recorded and not yet drained, oldest first.
    pub findings: Vec<ScanFinding>,
    /// The labels of the open nodes, the outermost first.
    pub stack: Vec<String>,
}

/// The mathematical form of a [`BaseRule`].
pub struct RuleState {
    pub findings: Seq<ScanFinding>,
    pub stack: Seq<String>,
}

impl View for BaseRule {
    type V = RuleState;

    open spec fn view(&self) -> RuleState {
        RuleState { findings: self.findings@, stack: self.stack@ }
    }
}

impl RuleState {
    /// The state with one more finding.
    pub open spec fn record(self, finding: ScanFinding) -> RuleState {
        RuleState { findings: self.findings.push(finding), stack: self.stack }
    }

    /// What a drain hands over, and the state it leaves.
    pub open spec fn drain(self) -> (Seq<ScanFinding>, RuleState) {
        (self.findings, RuleState { findings: Seq::empty(), stack: self.stack })
    }

    /// The state after entering a node with this label.
    pub open spec fn enter(self, label: String) -> RuleState {
        RuleState { findings: self.findings, stack: self.stack.push(label) }
    }

    /// The label that leaving a node gives back: that of the innermost open
    /// node, if any node is open.
    pub open spec fn innermost(self) -> Option<String> {
        if self.stack.len() > 0 {
            Some(self.stack.last())
        } else {
            None
        }
    }

    /// The state after leaving the innermost open node.
    pub open spec fn leave(self) -> RuleState {
        if self.stack.len() > 0 {
            RuleState { findings: self.findings, stack: self.stack.drop_last() }
        } else {
            self
        }
    }
}

/// One thing that a rule does to the state it shares.
pub enum RuleMove {
    /// It enters a node with this label.
    Enter(String),
    /// It leaves the innermost open node.
    Leave,
    /// It records a finding.
    Record(ScanFinding),
    /// It is drained of its findings.
    Drain,
}

impl RuleState {
    /// The state after one move.
    pub open spec fn after(self, step: RuleMove) -> RuleState {
        match step {
            RuleMove::Enter(label) => self.enter(label),
            RuleMove::Leave => self.leave(),
            RuleMove::Record(finding) => self.record(finding),
            RuleMove::Drain => self.drain().1,
        }
    }

    /// The state after some moves, made in their order.
    pub open spec fn replay(self, moves: Seq<RuleMove>) -> RuleState
        decreases moves.len(),
    {
        if moves.len() == 0 {
            self
        } else {
            self.replay(moves.drop_last()).after(moves.last())
        }
    }
}

/// How many more nodes some moves enter than they leave.
pub open spec fn surplus(moves: Seq<RuleMove>) -> int
    decreases moves.len(),
{
    if moves.len() == 0 {
        0
    } else {
        surplus(moves.drop_last()) + match moves.last() {
            RuleMove::Enter(_) => 1int,
            RuleMove::Leave => -1int,
            _ => 0int,
        }
    }
}

/// Whether the moves are those of a visit that matches every entry of a node
/// with one departure: at no point has it left more nodes than it entered,
/// and at the end it has left as many as it entered.
pub open spec fn balanced(moves: Seq<RuleMove>) -> bool {
    &&& forall|n: int| 0 <= n <= moves.len() ==> surplus(#[trigger] moves.take(n)) >= 0
    &&& surplus(moves) == 0
}

/// The offset of the first character at or after `from` that is not white
/// space, or the length of the text if there is none.
pub open spec fn word_start(text: Seq<char>, from: int) -> int
    decreases text.len() - from,
{
    if from < 0 || from >= text.len() {
        text.len() as int
    } else if !white_space(text[from]) {
        from
    } else {
        word_start(text, from + 1)
    }
}

/// The offset of the first white space at or after `from`, or the length of
/// the text if there is none.
pub open spec fn word_end(text: Seq<char>, from: int) -> int
    decreases text.len() - from,
{
    if from < 0 || from >= text.len() {
        text.len() as int
    } else if white_space(text[from]) {
        from
    } else {
        word_end(text, from + 1)
    }
}

/// The first run of characters of `text` that holds no white space; empty
/// if the text holds nothing else.
pub open spec fn first_word(text: Seq<char>) -> Seq<char> {
    let start = word_start(text, 0);
    text.subrange(start, word_end(text, start))
}

/// Whether a text holds no white space.
pub open spec fn is_word(text: Seq<char>) -> bool {
    forall|i: int| 0 <= i < text.len() ==> !white_space(#[trigger] text[i])
}

/// The labels of a stack on one line, the outermost first, with an arrow
/// between neighbours.
pub open spec fn trail_of(labels: Seq<String>) -> Seq<char>
    decreases labels.len(),
{
    if labels.len() == 0 {
        Seq::empty()
    } else if labels.len() == 1 {
        labels[0]@
    } else {
        trail_of(labels.drop_last()) + ARROW@ + labels.last()@
    }
}

/// The text of a dump: a styled line with the trail of the open nodes, then
/// the debug text of the node on a line of its own.
pub open spec fn dump_of(labels: Seq<String>, debug: Seq<char>) -> Seq<char> {
    CLR_FIND@ + DUMP_MARK@ + trail_of(labels) + CLR_CLEAR@ + LINE_BREAK@ + debug
}

/// The search for the start of a word ends inside the text or at its end,
/// past nothing but white space.
pub proof fn lemma_word_start(text: Seq<char>, from: int)
    requires
        0 <= from <= text.len(),
    ensures
        from <= word_start(text, from) <= text.len(),
        word_start(text, from) < text.len() ==> !white_space(text[word_start(text, from)]),
        forall|i: int| from <= i < word_start(text, from) ==> white_space(text[i]),
    decreases text.len() - from,
{
    if from < text.len() && white_space(text[from]) {
        lemma_word_start(text, from + 1);
    }
}

/// A word ends inside the text or at its end, and holds no white space.
pub proof fn lemma_word_end(text: Seq<char>, from: int)
    requires
        0 <= from <= text.len(),
    ensures
        from <= word_end(text, from) <= text.len(),
        word_end(text, from) < text.len() ==> white_space(text[word_end(text, from)]),
        forall|i: int| from <= i < word_end(text, from) ==> !white_space(text[i]),
    decreases text.len() - from,
{
    if from < text.len() && !white_space(text[from]) {
        lemma_word_end(text, from + 1);
    }
}

/// The first word of any text holds no white space.
pub proof fn lemma_first_word_is_word(text: Seq<char>)
    ensures
        is_word(first_word(text)),
{
    lemma_word_start(text, 0);
    let start = word_start(text, 0);
    lemma_word_end(text, start);
}

/// Moves that never leave more nodes than they entered keep the labels that
/// were there at the start, below as many labels as they left open.
proof fn lemma_replay_keeps_base(state: RuleState, moves: Seq<RuleMove>)
    requires
        forall|n: int| 0 <= n <= moves.len() ==> surplus(#[trigger] moves.take(n)) >= 0,
    ensures
        state.replay(moves).stack.len() == state.stack.len() + surplus(moves),
        state.replay(moves).stack.take(state.stack.len() as int) == state.stack,
    decreases moves.len(),
{
    if moves.len() > 0 {
        let before = moves.drop_last();
        assert forall|n: int| 0 <= n <= before.len() implies surplus(#[trigger] before.take(n))
            >= 0 by {
            assert(before.take(n) =~= moves.take(n));
        }
        lemma_replay_keeps_base(state, before);
        // Where the last move leaves a node, that node was entered on the
        // way, so the labels of the start stay.
        assert(moves.take(moves.len() as int) =~= moves);
    }
}

/// After a visit whose entries and departures match, the stack of labels is
/// what it was before the visit, and so is its depth, whatever findings were
/// recorded or drained on the way.
pub proof fn lemma_visit_restores_stack(state: RuleState, moves: Seq<RuleMove>)
    requires
        balanced(moves),
    ensures
        state.replay(moves).stack == state.stack,
        state.replay(moves).stack.len() == state.stack.len(),
{
    lemma_replay_keeps_base(state, moves);
}

/// A drain hands over every finding recorded since the last one, and a
/// second drain that follows it directly hands over none and changes
/// nothing.
pub proof fn lemma_second_drain_is_empty(state: RuleState)
    ensures
        state.drain().0 == state.findings,
        state.drain().1.drain().0 == Seq::<ScanFinding>::empty(),
        state.drain().1.drain().1 == state.drain().1,
{
}

/// A text that starts with a word, and in which that word ends at `end`,
/// has that word as its first word.
pub proof fn lemma_first_word_ends_at(text: Seq<char>, end: int)
    requires
        0 < end <= text.len(),
        forall|i: int| 0 <= i < end ==> !white_space(#[trigger] text[i]),
        end < text.len() ==> white_space(text[end]),
    ensures
        first_word(text) == text.subrange(0, end),
{
    lemma_word_end(text, 0);
}

/// The first word of a text that begins with `Item::` begins with it too.
pub proof fn lemma_first_word_keeps_mark(text: Seq<char>)
    requires
        ITEM_MARK@.is_prefix_of(text),
    ensures
        ITEM_MARK@.is_prefix_of(first_word(text)),
{
    reveal_strlit("Item::");
    let mark = ITEM_MARK@;
    assert forall|i: int| 0 <= i < mark.len() implies !white_space(#[trigger] text[i]) by {
        assert(text[i] == mark[i]);
    }
    lemma_word_start(text, 0);
    lemma_word_end(text, 0);
    let end = word_end(text, 0);
    if end < mark.len() {
        assert(!white_space(text[end]));
    }
    assert(first_word(text).subrange(0, mark.len() as int) =~= mark);
}

/// The finding that reports a function by its name, on the lines of the
/// name.
pub fn found_function(name: &str, start: usize, end: usize) -> (finding: ScanFinding)
    ensures
        finding.text@ == FOUND_FUNCTION@ + name@,
        finding.start == start,
        finding.end == end,
{
    let mut text = String::from_str(FOUND_FUNCTION);
    text.append(name);
    ScanFinding { text, start, end }
}

impl BaseRule {
    /// A rule state with no findings and no open node.
    pub fn new() -> (rule: Self)
        ensures
            rule@.findings == Seq::<ScanFinding>::empty(),
            rule@.stack == Seq::<String>::empty(),
    {
        BaseRule { findings: Vec::new(), stack: Vec::new() }
    }

    /// Records a finding after those recorded before.
    pub fn add_finding(&mut self, finding: ScanFinding)
        ensures
            final(self)@ == old(self)@.record(finding),
    {
        self.findings.push(finding);
    }

    /// A copy of the findings recorded and not yet drained.
    pub fn get_findings(&self) -> (copy: Vec<ScanFinding>)
        ensures
            copy@ == self@.findings,
    {
        let mut copy: Vec<ScanFinding> = Vec::new();
        let mut i: usize = 0;
        while i < self.findings.len()
            invariant
                i <= self.findings@.len(),
                copy@ == self.findings@.take(i as int),
            decreases self.findings@.len() - i,
        {
            copy.push(self.findings[i].clone());
            assert(self.findings@.take(i as int).push(self.findings@[i as int])
                =~= self.findings@.take(i + 1));
            i += 1;
        }
        copy
    }

    /// Hands over the findings recorded so far and forgets them. The open
    /// nodes stay as they are, so a drain may come in the middle of a visit.
    pub fn consume_findings(&mut self) -> (drained: Vec<ScanFinding>)
        ensures
            (drained@, final(self)@) == old(self)@.drain(),
    {
        let mut drained: Vec<ScanFinding> = Vec::new();
        std::mem::swap(&mut self.findings, &mut drained);
        drained
    }

    /// Enters a node: its label goes on top of the stack.
    pub fn push_label(&mut self, label: String)
        ensures
            final(self)@ == old(self)@.enter(label),
    {
        self.stack.push(label);
    }

    /// Enters a declaration of a syntax tree, under the label that
    /// [`BaseRule::get_item_name`] gives it: the first word of its debug
    /// text. The label goes on top of the stack, and nothing else changes.
    pub fn push(&mut self, item: &syn::Item)
        ensures
            final(self)@.stack.len() == old(self)@.stack.len() + 1,
            final(self)@ == old(self)@.enter(final(self)@.stack.last()),
            final(self)@.stack.last()@ == first_word(debug_text(*item)),
            is_word(final(self)@.stack.last()@),
    {
        let label = BaseRule::get_item_name(item);
        self.push_label(label);
    }

    /// Leaves the innermost open node and gives back its label. With no
    /// node open there is nothing to give back and nothing changes.
    pub fn pop(&mut self) -> (label: Option<String>)
        ensures
            label == old(self)@.innermost(),
            final(self)@ == old(self)@.leave(),
    {
        self.stack.pop()
    }

    /// The labels of the open nodes on one line.
    pub fn trail(&self) -> (line: String)
        ensures
            line@ == trail_of(self@.stack),
    {
        let mut line = String::new();
        let mut i: usize = 0;
        while i < self.stack.len()
            invariant
                i <= self.stack@.len(),
                line@ == trail_of(self.stack@.take(i as int)),
            decreases self.stack@.len() - i,
        {
            if i > 0 {
                line.append(ARROW);
            }
            line.append(self.stack[i].as_str());
            assert(self.stack@.take(i + 1).drop_last() =~= self.stack@.take(i as int));
            i += 1;
        }
        assert(self.stack@.take(i as int) =~= self.stack@);
        line
    }

    /// The text of a dump of a node whose debug text is `debug`.
    pub fn dump_text(&self, debug: &str) -> (text: String)
        ensures
            text@ == dump_of(self@.stack, debug@),
    {
        let mut text = String::from_str(CLR_FIND);
        text.append(DUMP_MARK);
        let line = self.trail();
        text.append(line.as_str());
        text.append(CLR_CLEAR);
        text.append(LINE_BREAK);
        text.append(debug);
        text
    }

    /// The text of a dump of a declaration: the trail of the open nodes, then
    /// the declaration as the parser's debug output renders it.
    pub fn dump(&self, item: &syn::Item) -> (text: String)
        ensures
            text@ == dump_of(self@.stack, debug_text(*item)),
    {
        let debug = item_debug(item);
        self.dump_text(debug.as_str())
    }

    /// The label of a node whose debug text is `text`: its first word.
    pub fn label_of(text: &str) -> (label: String)
        ensures
            label@ == first_word(text@),
    {
        broadcast use vstd::string::group_string_axioms;

        let ghost all = text@;
        let ghost mut at: int = 0;
        let mut chars = text.chars();
        let mut current = chars.next();
        let mut blank = true;
        while blank
            invariant
                chars.obeys_prophetic_iter_laws(),
                0 <= at <= all.len(),
                at < all.len() ==> current == Some(all[at]) && chars.remaining() == all.subrange(
                    at + 1,
                    all.len() as int,
                ),
                at == all.len() ==> current.is_none() && chars.remaining().len() == 0,
                word_start(all, 0) == word_start(all, at),
                !blank ==> at == word_start(all, at),
            decreases all.len() - at, if blank { 1int } else { 0int },
        {
            match current {
                Some(c) => {
                    if c.is_whitespace() {
                        current = chars.next();
                        proof {
                            at = at + 1;
                        }
                    } else {
                        blank = false;
                    }
                },
                None => {
                    blank = false;
                },
            }
        }
        let ghost start = at;
        let mut label = String::new();
        let mut inside = true;
        while inside
            invariant
                chars.obeys_prophetic_iter_laws(),
                0 <= start <= at <= all.len(),
                at < all.len() ==> current == Some(all[at]) && chars.remaining() == all.subrange(
                    at + 1,
                    all.len() as int,
                ),
                at == all.len() ==> current.is_none() && chars.remaining().len() == 0,
                word_end(all, start) == word_end(all, at),
                label@ == all.subrange(start, at),
                !inside ==> at == word_end(all, at),
            decreases all.len() - at, if inside { 1int } else { 0int },
        {
            match current {
                Some(c) => {
                    if c.is_whitespace() {
                        inside = false;
                    } else {
                        label.push(c);
                        current = chars.next();
                        proof {
                            at = at + 1;
                        }
                    }
                },
                None => {
                    inside = false;
                },
            }
        }
        label
    }

    /// A short label for a declaration: the first word of its debug text,
    /// which names the kind of declaration. The debug text is that of the
    /// parser and begins with `Item::`, so the label does too; it is one
    /// word.
    pub fn get_item_name(item: &syn::Item) -> (name: String)
        ensures
            name@ == first_word(debug_text(*item)),
            is_word(name@),
            ITEM_MARK@.is_prefix_of(name@),
    {
        let debug = item_debug(item);
        proof {
            lemma_first_word_is_word(debug@);
            lemma_first_word_keeps_mark(debug@);
        }
        BaseRule::label_of(debug.as_str())
    }
}

impl Default for BaseRule {
    fn default() -> (rule: Self)
        ensures
            rule@.findings == Seq::<ScanFinding>::empty(),
            rule@.stack == Seq::<String>::empty(),
    {
        BaseRule::new()
    }
}

} // verus!
