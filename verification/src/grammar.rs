//! Grammar rules, compiled into a flat program of steps.
//!
//! A grammar is written as nested calls of a [`Builder`]: a rule is opened,
//! then its one child is given, which is a leaf, a reference to a rule, or a
//! block (a sequence, a choice, an optional part, a repetition) that holds
//! children of its own and is closed by [`Builder::end`]. The builder lays the
//! steps out one after the other; a block's step records where the block
//! ends. [`Builder::build`] hands out the [`Program`], or names what is wrong
//! with the grammar.
use crate::tokenize::Tok;
use vstd::prelude::*;

verus! {

/// The names of the rules.
#[derive(Debug, Clone, Copy, PartialEq, Eq, Structural)]
pub enum Symbol {
    Module,
    If,
    Block,
    Statement,
    Expression,
    NaryRight,
    NaryOperator,
    Nullary,
    Parens,
    Not,
    Identifier,
    Boolean,
    Number,
}

/// How many symbols there are.
pub const SYMBOLS: usize = 13;

impl Symbol {
    /// The place of a symbol in the table of entries.
    pub open spec fn ord(self) -> int {
        match self {
            Symbol::Module => 0,
            Symbol::If => 1,
            Symbol::Block => 2,
            Symbol::Statement => 3,
            Symbol::Expression => 4,
            Symbol::NaryRight => 5,
            Symbol::NaryOperator => 6,
            Symbol::Nullary => 7,
            Symbol::Parens => 8,
            Symbol::Not => 9,
            Symbol::Identifier => 10,
            Symbol::Boolean => 11,
            Symbol::Number => 12,
        }
    }

    /// The place of a symbol in the table of entries.
    pub fn index(self) -> (r: usize)
        ensures
            r == self.ord(),
            r < SYMBOLS,
    {
        match self {
            Symbol::Module => 0,
            Symbol::If => 1,
            Symbol::Block => 2,
            Symbol::Statement => 3,
            Symbol::Expression => 4,
            Symbol::NaryRight => 5,
            Symbol::NaryOperator => 6,
            Symbol::Nullary => 7,
            Symbol::Parens => 8,
            Symbol::Not => 9,
            Symbol::Identifier => 10,
            Symbol::Boolean => 11,
            Symbol::Number => 12,
        }
    }

    /// Does a rule of this name open a level of indentation?
    pub open spec fn nests(self) -> bool {
        self == Symbol::Block
    }

    /// Does a rule of this name open a level of indentation?
    pub fn opens_level(self) -> (r: bool)
        ensures
            r == self.nests(),
    {
        self == Symbol::Block
    }
}

/// One step of a program.
#[derive(Debug, Clone, Copy, PartialEq, Eq, Structural)]
pub enum Step {
    /// The entry of a rule; its one child follows.
    RuleStart(Symbol),
    /// A call of the rule of that name.
    Reference(Symbol),
    /// Matches one token of that kind.
    Literal(Tok),
    /// All children, one after the other. The number is the index after the
    /// block's last step, as in the three that follow.
    Sequence(usize),
    /// The first child that matches.
    Choice(usize),
    /// Its children as a sequence, or nothing.
    Optional(usize),
    /// Its children as a sequence, as often as they match.
    Repeat(usize),
    /// Steps over one space token, if there is one.
    SkipSpace,
    /// Matches the indentation of the current level plus that many levels.
    Indentation(usize),
    /// Matches where the tokens end.
    EndOfInput,
}

/// The four kinds of block.
#[derive(Debug, Clone, Copy, PartialEq, Eq, Structural)]
pub enum Block {
    Sequence,
    Choice,
    Optional,
    Repeat,
}

impl Block {
    /// The step that opens a block of this kind and ends at `end`.
    pub open spec fn step(self, end: usize) -> Step {
        match self {
            Block::Sequence => Step::Sequence(end),
            Block::Choice => Step::Choice(end),
            Block::Optional => Step::Optional(end),
            Block::Repeat => Step::Repeat(end),
        }
    }

    /// The step that opens a block of this kind and ends at `end`.
    pub fn make(self, end: usize) -> (r: Step)
        ensures
            r == self.step(end),
    {
        match self {
            Block::Sequence => Step::Sequence(end),
            Block::Choice => Step::Choice(end),
            Block::Optional => Step::Optional(end),
            Block::Repeat => Step::Repeat(end),
        }
    }
}

impl Step {
    /// The kind of block that this step opens, if it opens one.
    pub open spec fn block(self) -> Option<Block> {
        match self {
            Step::Sequence(_) => Some(Block::Sequence),
            Step::Choice(_) => Some(Block::Choice),
            Step::Optional(_) => Some(Block::Optional),
            Step::Repeat(_) => Some(Block::Repeat),
            _ => None,
        }
    }

    /// Where the block that this step opens ends; 0 for any other step.
    pub open spec fn end(self) -> int {
        match self {
            Step::Sequence(end) | Step::Choice(end) | Step::Optional(end) | Step::Repeat(end) => end as int,
            _ => 0,
        }
    }

    /// Is this the entry of a rule?
    pub open spec fn is_rule(self) -> bool {
        self is RuleStart
    }

    /// A step that is neither a rule's entry nor a block.
    pub open spec fn is_plain(self) -> bool {
        !self.is_rule() && self.block() is None
    }
}

/// What a program is: its steps, and for each symbol the index of its rule's
/// entry, if the rule is defined.
pub struct Grammar {
    pub steps: Seq<Step>,
    pub entries: Seq<Option<usize>>,
}

impl Grammar {
    /// The entry of the rule named `symbol`.
    pub open spec fn entry(self, symbol: Symbol) -> Option<usize> {
        self.entries[symbol.ord()]
    }

    /// Is `i` the index of a block's step?
    pub open spec fn is_block(self, i: int) -> bool {
        0 <= i < self.steps.len() && self.steps[i].block() is Some
    }

    /// Is `i` the index of a rule's entry?
    pub open spec fn is_rule(self, i: int) -> bool {
        0 <= i < self.steps.len() && self.steps[i].is_rule()
    }

    /// The index after the step at `at` and all that it holds, where that
    /// step is no rule's entry.
    pub open spec fn after_plain(self, at: int) -> int {
        if self.is_block(at) && self.steps[at].end() > at {
            self.steps[at].end()
        } else {
            at + 1
        }
    }

    /// The index after the step at `at` and all that it holds. A rule's entry
    /// holds its child.
    pub open spec fn after(self, at: int) -> int {
        if self.is_rule(at) {
            self.after_plain(at + 1)
        } else {
            self.after_plain(at)
        }
    }

    /// A block holds at least one step and ends within the program.
    pub open spec fn blocks_bounded(self) -> bool {
        forall|i: int| #[trigger]
            self.is_block(i) ==> i + 1 < self.steps[i].end() <= self.steps.len()
    }

    /// What stands inside a block is no rule's entry, and a block inside a
    /// block ends within it.
    pub open spec fn blocks_nested(self) -> bool {
        forall|i: int, j: int|
            #![trigger self.is_block(i), self.steps[j]]
            self.is_block(i) && i < j < self.steps[i].end() ==> {
                &&& !self.is_rule(j)
                &&& self.is_block(j) ==> self.steps[j].end() <= self.steps[i].end()
            }
    }

    /// A rule's entry is followed by the rule's child.
    pub open spec fn rules_filled(self) -> bool {
        forall|i: int| #[trigger]
            self.is_rule(i) ==> i + 1 < self.steps.len() && !self.is_rule(i + 1)
    }

    /// The table of entries leads each symbol that it knows to the entry of
    /// that symbol's rule.
    pub open spec fn entries_sound(self) -> bool {
        &&& self.entries.len() == SYMBOLS
        &&& forall|s: Symbol|
            (#[trigger] self.entry(s)) matches Some(e) ==> e < self.steps.len() && self.steps[e as int]
                == Step::RuleStart(s)
    }

    /// Every rule that a step refers to is defined.
    pub open spec fn references_defined(self) -> bool {
        forall|i: int, s: Symbol|
            0 <= i < self.steps.len() && #[trigger] self.steps[i] == Step::Reference(s)
                ==> #[trigger] self.entry(s) is Some
    }

    /// What holds of every program that a builder hands out.
    pub open spec fn well_formed(self) -> bool {
        &&& self.blocks_bounded()
        &&& self.blocks_nested()
        &&& self.rules_filled()
        &&& self.entries_sound()
        &&& self.references_defined()
    }
}

/// A finished grammar: its steps, and where each rule begins.
pub struct Program {
    steps: Vec<Step>,
    entries: Vec<Option<usize>>,
}

impl View for Program {
    type V = Grammar;

    closed spec fn view(&self) -> Grammar {
        Grammar { steps: self.steps@, entries: self.entries@ }
    }
}

impl Program {
    #[verifier::type_invariant]
    spec fn sound(self) -> bool {
        self@.well_formed()
    }

    /// The number of steps.
    pub fn len(&self) -> (r: usize)
        ensures
            r == self@.steps.len(),
    {
        self.steps.len()
    }

    /// The step at `index`.
    pub fn step(&self, index: usize) -> (r: Option<Step>)
        ensures
            r == if index < self@.steps.len() {
                Some(self@.steps[index as int])
            } else {
                None
            },
    {
        if index < self.steps.len() {
            Some(self.steps[index])
        } else {
            None
        }
    }

    /// The step at `index`, which is within the program.
    pub fn at(&self, index: usize) -> (r: Step)
        requires
            index < self@.steps.len(),
        ensures
            r == self@.steps[index as int],
    {
        self.steps[index]
    }

    /// The index of the entry of the rule named `symbol`, if the program
    /// defines that rule.
    pub fn entry(&self, symbol: Symbol) -> (r: Option<usize>)
        ensures
            self@.well_formed(),
            r == self@.entry(symbol),
    {
        proof {
            use_type_invariant(self);
        }
        self.entries[symbol.index()]
    }
}


/// What is wrong with a grammar.
#[derive(Debug, Clone, Copy, PartialEq, Eq, Structural)]
pub enum BuildError {
    /// `end` was called with no block open.
    EndWithoutBlock,
    /// A block was closed with nothing in it.
    EmptyBlock,
    /// A step was given where no rule and no block awaits one.
    StepOutsideRule,
    /// A rule was begun inside a block.
    RuleInsideBlock,
    /// A rule was left without its child.
    EmptyRule,
    /// A block was left open.
    UnterminatedBlock,
    /// A step refers to a rule that was never begun.
    UndefinedReference(Symbol),
}

/// What a builder holds: the steps so far, the indices of the blocks that
/// are open, innermost last, the entries of the rules so far, and the first
/// thing that went wrong, if any did.
pub struct Draft {
    pub steps: Seq<Step>,
    pub open: Seq<usize>,
    pub entries: Seq<Option<usize>>,
    pub defect: Option<BuildError>,
}

impl Draft {
    /// A draft with nothing in it.
    pub open spec fn empty() -> Draft {
        Draft {
            steps: Seq::empty(),
            open: Seq::empty(),
            entries: Seq::new(SYMBOLS as nat, |i: int| None),
            defect: None,
        }
    }

    /// The steps and the entries so far, as a grammar.
    pub open spec fn grammar(self) -> Grammar {
        Grammar { steps: self.steps, entries: self.entries }
    }

    /// Does a rule or an open block await a step?
    pub open spec fn awaits_step(self) -> bool {
        self.open.len() > 0 || (self.steps.len() > 0 && self.steps.last().is_rule())
    }

    /// The draft with `defect` as what went wrong.
    pub open spec fn spoiled(self, defect: BuildError) -> Draft {
        Draft { defect: Some(defect), ..self }
    }

    /// The draft after a rule named `symbol` is begun.
    pub open spec fn rule(self, symbol: Symbol) -> Draft {
        if self.defect is Some {
            self
        } else if self.open.len() > 0 {
            self.spoiled(BuildError::RuleInsideBlock)
        } else if self.steps.len() > 0 && self.steps.last().is_rule() {
            self.spoiled(BuildError::EmptyRule)
        } else {
            Draft {
                steps: self.steps.push(Step::RuleStart(symbol)),
                entries: self.entries.update(symbol.ord(), Some(self.steps.len() as usize)),
                ..self
            }
        }
    }

    /// The draft after `step`, which is a leaf or a reference, is given.
    pub open spec fn placed(self, step: Step) -> Draft {
        if self.defect is Some {
            self
        } else if !self.awaits_step() {
            self.spoiled(BuildError::StepOutsideRule)
        } else {
            Draft { steps: self.steps.push(step), ..self }
        }
    }

    /// The draft after a block is opened. Until the block is closed, its
    /// step holds 0 in place of the block's end.
    pub open spec fn opened(self, block: Block) -> Draft {
        if self.defect is Some {
            self
        } else if !self.awaits_step() {
            self.spoiled(BuildError::StepOutsideRule)
        } else {
            Draft {
                steps: self.steps.push(block.step(0)),
                open: self.open.push(self.steps.len() as usize),
                ..self
            }
        }
    }

    /// The draft after the innermost open block is closed: the block's step
    /// now holds the number of steps so far.
    pub open spec fn closed(self) -> Draft {
        if self.defect is Some {
            self
        } else if self.open.len() == 0 {
            self.spoiled(BuildError::EndWithoutBlock)
        } else if self.open.last() + 1 >= self.steps.len() {
            self.spoiled(BuildError::EmptyBlock)
        } else {
            let at = self.open.last() as int;
            Draft {
                steps: self.steps.update(
                    at,
                    self.steps[at].block().unwrap().step(self.steps.len() as usize),
                ),
                open: self.open.drop_last(),
                ..self
            }
        }
    }

    /// The first rule from step `from` on that is referred to and not
    /// defined.
    pub open spec fn undefined(self, from: int) -> Option<Symbol>
        decreases self.steps.len() - from,
    {
        if from < 0 || from >= self.steps.len() {
            None
        } else {
            match self.steps[from] {
                Step::Reference(symbol) => if self.grammar().entry(symbol) is None {
                    Some(symbol)
                } else {
                    self.undefined(from + 1)
                },
                _ => self.undefined(from + 1),
            }
        }
    }

    /// What the draft comes to: a grammar, or what is wrong with it.
    pub open spec fn verdict(self) -> Result<Grammar, BuildError> {
        if let Some(defect) = self.defect {
            Err(defect)
        } else if self.open.len() > 0 {
            Err(BuildError::UnterminatedBlock)
        } else if self.steps.len() > 0 && self.steps.last().is_rule() {
            Err(BuildError::EmptyRule)
        } else if let Some(symbol) = self.undefined(0) {
            Err(BuildError::UndefinedReference(symbol))
        } else {
            Ok(self.grammar())
        }
    }

    /// Is `i` the index of a block that is still open?
    pub open spec fn is_open(self, i: int) -> bool {
        self.grammar().is_block(i) && self.steps[i].end() == 0
    }

    /// Is `i` on the stack of open blocks?
    pub open spec fn listed(self, i: int) -> bool {
        exists|k: int| 0 <= k < self.open.len() && #[trigger] self.open[k] == i
    }

    /// What holds of every draft that a builder holds.
    pub open spec fn sound(self) -> bool {
        let g = self.grammar();
        &&& g.entries_sound()
        &&& forall|k: int| 0 <= k < self.open.len() ==> self.is_open(#[trigger] self.open[k] as int)
        &&& forall|k: int, l: int|
            0 <= k < l < self.open.len() ==> (#[trigger] self.open[k]) < (#[trigger] self.open[l])
        &&& forall|i: int| #[trigger] self.is_open(i) ==> self.listed(i)
        &&& forall|i: int|
            #[trigger] g.is_block(i) && !self.is_open(i) ==> i + 1 < self.steps[i].end()
                <= self.steps.len()
        &&& forall|i: int, j: int|
            #![trigger g.is_block(i), self.steps[j]]
            g.is_block(i) && i < j < self.steps[i].end() ==> {
                &&& !g.is_rule(j)
                &&& !self.is_open(j)
                &&& g.is_block(j) ==> self.steps[j].end() <= self.steps[i].end()
            }
        &&& forall|k: int, j: int|
            #![trigger self.open[k], self.steps[j]]
            0 <= k < self.open.len() && self.open[k] < j < self.steps.len() ==> !g.is_rule(j)
        &&& forall|i: int| #[trigger] g.is_rule(i) && i + 1 < self.steps.len() ==> !g.is_rule(i + 1)
    }

    /// A step that is given keeps the draft sound.
    pub proof fn lemma_placed(self, step: Step)
        requires
            self.sound(),
            step.is_plain(),
        ensures
            self.placed(step).sound(),
    {
        let after = self.placed(step);
        if self.defect is None && self.awaits_step() {
            let g = after.grammar();
            assert forall|i: int| #[trigger] after.is_open(i) implies after.listed(i) by {
                assert(self.is_open(i));
                assert(self.listed(i));
                let k = choose|k: int| 0 <= k < self.open.len() && #[trigger] self.open[k] == i;
                assert(after.open[k] == i);
            }
            assert forall|k: int| 0 <= k < after.open.len() implies after.is_open(
                #[trigger] after.open[k] as int,
            ) by {
                assert(self.is_open(self.open[k] as int));
            }
            assert forall|i: int| #[trigger] g.is_block(i) && !after.is_open(i) implies i + 1
                < after.steps[i].end() <= after.steps.len() by {
                assert(self.grammar().is_block(i) && !self.is_open(i));
            }
            assert forall|i: int, j: int|
                #![trigger g.is_block(i), after.steps[j]]
                g.is_block(i) && i < j < after.steps[i].end() implies {
                &&& !g.is_rule(j)
                &&& !after.is_open(j)
                &&& g.is_block(j) ==> after.steps[j].end() <= after.steps[i].end()
            } by {
                assert(self.grammar().is_block(i));
                assert(!self.is_open(i));
                assert(self.steps[j] == after.steps[j]);
            }
            assert forall|k: int, j: int|
                #![trigger after.open[k], after.steps[j]]
                0 <= k < after.open.len() && after.open[k] < j < after.steps.len() implies !g.is_rule(
                j,
            ) by {
                if j < self.steps.len() {
                    assert(self.steps[j] == after.steps[j]);
                    assert(self.open[k] < j);
                }
            }
            assert forall|i: int| #[trigger] g.is_rule(i) && i + 1 < after.steps.len() implies !g.is_rule(
                i + 1,
            ) by {
                if i + 1 < self.steps.len() {
                    assert(self.grammar().is_rule(i));
                }
            }
            assert forall|s: Symbol| (#[trigger] g.entry(s)) is Some implies g.entry(s).unwrap()
                < after.steps.len() && after.steps[g.entry(s).unwrap() as int] == Step::RuleStart(
                s,
            ) by {
                assert(self.grammar().entry(s) == g.entry(s));
            }
        }
    }

    /// A rule that is begun keeps the draft sound.
    pub proof fn lemma_rule(self, symbol: Symbol)
        requires
            self.sound(),
            self.steps.len() <= usize::MAX,
        ensures
            self.rule(symbol).sound(),
    {
        let after = self.rule(symbol);
        if self.defect is None && self.open.len() == 0 && !(self.steps.len() > 0
            && self.steps.last().is_rule()) {
            let g = after.grammar();
            let n = self.steps.len() as int;
            assert forall|i: int| #[trigger] after.is_open(i) implies after.listed(i) by {
                assert(self.is_open(i));
                assert(self.listed(i));
            }
            assert forall|i: int| #[trigger] g.is_block(i) && !after.is_open(i) implies i + 1
                < after.steps[i].end() <= after.steps.len() by {
                assert(self.grammar().is_block(i) && !self.is_open(i));
            }
            assert forall|i: int, j: int|
                #![trigger g.is_block(i), after.steps[j]]
                g.is_block(i) && i < j < after.steps[i].end() implies {
                &&& !g.is_rule(j)
                &&& !after.is_open(j)
                &&& g.is_block(j) ==> after.steps[j].end() <= after.steps[i].end()
            } by {
                assert(self.grammar().is_block(i));
                assert(!self.is_open(i)) by {
                    if self.is_open(i) {
                        assert(self.listed(i));
                    }
                }
                assert(self.steps[j] == after.steps[j]);
            }
            assert forall|i: int| #[trigger] g.is_rule(i) && i + 1 < after.steps.len() implies !g.is_rule(
                i + 1,
            ) by {
                if i + 1 < n {
                    assert(self.grammar().is_rule(i));
                } else {
                    assert(self.steps.last() == self.steps[i]);
                }
            }
            assert forall|s: Symbol| (#[trigger] g.entry(s)) is Some implies g.entry(s).unwrap()
                < after.steps.len() && after.steps[g.entry(s).unwrap() as int] == Step::RuleStart(
                s,
            ) by {
                if s.ord() != symbol.ord() {
                    assert(self.grammar().entry(s) == g.entry(s));
                } else {
                    assert(s == symbol);
                }
            }
            assert(g.entries_sound());
            assert(forall|k: int| 0 <= k < after.open.len() ==> after.is_open(#[trigger] after.open[k] as int));
            assert(forall|k: int, l: int|
                0 <= k < l < after.open.len() ==> (#[trigger] after.open[k]) < (#[trigger] after.open[l]));
            assert(forall|i: int| #[trigger] after.is_open(i) ==> after.listed(i));
            assert(forall|i: int|
                #[trigger] g.is_block(i) && !after.is_open(i) ==> i + 1 < after.steps[i].end()
                    <= after.steps.len());
            assert(forall|k: int, j: int|
                #![trigger after.open[k], after.steps[j]]
                0 <= k < after.open.len() && after.open[k] < j < after.steps.len() ==> !g.is_rule(j));
            assert(forall|i: int| #[trigger] g.is_rule(i) && i + 1 < after.steps.len() ==> !g.is_rule(i + 1));
            assert(forall|i: int, j: int|
                #![trigger g.is_block(i), after.steps[j]]
                g.is_block(i) && i < j < after.steps[i].end() ==> {
                    &&& !g.is_rule(j)
                    &&& !after.is_open(j)
                    &&& g.is_block(j) ==> after.steps[j].end() <= after.steps[i].end()
                });
            assert(after.sound());
        } else {
            assert(after.grammar() == self.grammar());
            assert(after.open == self.open);
            assert(after.sound());
        }
    }

    /// A block that is opened keeps the draft sound.
    pub proof fn lemma_opened(self, block: Block)
        requires
            self.sound(),
            self.steps.len() <= usize::MAX,
        ensures
            self.opened(block).sound(),
    {
        let after = self.opened(block);
        if self.defect is None && self.awaits_step() {
            let g = after.grammar();
            let n = self.steps.len() as int;
            assert(after.steps[n] == block.step(0));
            assert(after.is_open(n));
            assert forall|k: int| 0 <= k < after.open.len() implies after.is_open(
                #[trigger] after.open[k] as int,
            ) by {
                if k < self.open.len() {
                    assert(self.is_open(self.open[k] as int));
                }
            }
            assert forall|k: int, l: int| 0 <= k < l < after.open.len() implies (
            #[trigger] after.open[k]) < (#[trigger] after.open[l]) by {
                assert(self.is_open(self.open[k] as int));
            }
            assert forall|i: int| #[trigger] after.is_open(i) implies after.listed(i) by {
                if i < n {
                    assert(self.is_open(i));
                    assert(self.listed(i));
                    let k = choose|k: int| 0 <= k < self.open.len() && #[trigger] self.open[k] == i;
                    assert(after.open[k] == i);
                } else {
                    assert(after.open[self.open.len() as int] == i);
                }
            }
            assert forall|i: int| #[trigger] g.is_block(i) && !after.is_open(i) implies i + 1
                < after.steps[i].end() <= after.steps.len() by {
                assert(self.grammar().is_block(i) && !self.is_open(i));
            }
            assert forall|i: int, j: int|
                #![trigger g.is_block(i), after.steps[j]]
                g.is_block(i) && i < j < after.steps[i].end() implies {
                &&& !g.is_rule(j)
                &&& !after.is_open(j)
                &&& g.is_block(j) ==> after.steps[j].end() <= after.steps[i].end()
            } by {
                assert(self.grammar().is_block(i));
                assert(!self.is_open(i));
                assert(self.steps[j] == after.steps[j]);
            }
            assert forall|k: int, j: int|
                #![trigger after.open[k], after.steps[j]]
                0 <= k < after.open.len() && after.open[k] < j < after.steps.len() implies !g.is_rule(
                j,
            ) by {
                if j < n {
                    assert(self.steps[j] == after.steps[j]);
                    assert(self.open[k] < j);
                }
            }
            assert forall|i: int| #[trigger] g.is_rule(i) && i + 1 < after.steps.len() implies !g.is_rule(
                i + 1,
            ) by {
                if i + 1 < n {
                    assert(self.grammar().is_rule(i));
                }
            }
            assert forall|s: Symbol| (#[trigger] g.entry(s)) is Some implies g.entry(s).unwrap()
                < after.steps.len() && after.steps[g.entry(s).unwrap() as int] == Step::RuleStart(
                s,
            ) by {
                assert(self.grammar().entry(s) == g.entry(s));
            }
        }
    }

    /// A block that is closed keeps the draft sound.
    pub proof fn lemma_closed(self)
        requires
            self.sound(),
            self.steps.len() <= usize::MAX,
        ensures
            self.closed().sound(),
    {
        let after = self.closed();
        if self.defect is None && self.open.len() > 0 && self.open.last() + 1 < self.steps.len() {
            let g = after.grammar();
            let n = self.steps.len() as int;
            let last = self.open.len() - 1;
            let at = self.open.last() as int;
            assert(self.is_open(self.open[last] as int));
            assert(after.steps[at].end() == n);
            assert(g.is_block(at));
            assert(!after.is_open(at));
            assert forall|k: int| 0 <= k < after.open.len() implies after.is_open(
                #[trigger] after.open[k] as int,
            ) by {
                assert(self.is_open(self.open[k] as int));
                assert(self.open[k] < self.open[last]);
            }
            assert forall|k: int, l: int| 0 <= k < l < after.open.len() implies (
            #[trigger] after.open[k]) < (#[trigger] after.open[l]) by {
                assert(self.open[k] < self.open[l]);
            }
            assert forall|i: int| #[trigger] after.is_open(i) implies after.listed(i) by {
                assert(i != at);
                assert(self.is_open(i));
                assert(self.listed(i));
                let k = choose|k: int| 0 <= k < self.open.len() && #[trigger] self.open[k] == i;
                assert(after.open[k] == i);
            }
            assert forall|j: int| at < j < n implies !self.is_open(j) by {
                if self.is_open(j) {
                    assert(self.listed(j));
                    let k = choose|k: int| 0 <= k < self.open.len() && #[trigger] self.open[k] == j;
                    if k < last {
                        assert(self.open[k] < self.open[last]);
                    }
                }
            }
            assert forall|i: int| #[trigger] g.is_block(i) && !after.is_open(i) implies i + 1
                < after.steps[i].end() <= after.steps.len() by {
                if i != at {
                    assert(self.grammar().is_block(i) && !self.is_open(i));
                }
            }
            assert forall|i: int, j: int|
                #![trigger g.is_block(i), after.steps[j]]
                g.is_block(i) && i < j < after.steps[i].end() implies {
                &&& !g.is_rule(j)
                &&& !after.is_open(j)
                &&& g.is_block(j) ==> after.steps[j].end() <= after.steps[i].end()
            } by {
                if i == at {
                    assert(self.open[last] < j);
                    assert(self.steps[j] == after.steps[j]);
                    assert(!self.is_open(j));
                    if g.is_block(j) {
                        assert(self.grammar().is_block(j) && !self.is_open(j));
                    }
                } else {
                    assert(self.grammar().is_block(i));
                    assert(self.steps[i] == after.steps[i]);
                    assert(self.steps[j] == self.steps[j]);
                    assert(j != at);
                    assert(self.steps[j] == after.steps[j]);
                }
            }
            assert forall|k: int, j: int|
                #![trigger after.open[k], after.steps[j]]
                0 <= k < after.open.len() && after.open[k] < j < after.steps.len() implies !g.is_rule(
                j,
            ) by {
                assert(self.open[k] < j);
                assert(!self.grammar().is_rule(j));
            }
            assert forall|i: int| #[trigger] g.is_rule(i) && i + 1 < after.steps.len() implies !g.is_rule(
                i + 1,
            ) by {
                assert(self.grammar().is_rule(i));
            }
            assert forall|s: Symbol| (#[trigger] g.entry(s)) is Some implies g.entry(s).unwrap()
                < after.steps.len() && after.steps[g.entry(s).unwrap() as int] == Step::RuleStart(
                s,
            ) by {
                assert(self.grammar().entry(s) == g.entry(s));
            }
            assert(g.entries_sound());
            assert(forall|k: int| 0 <= k < after.open.len() ==> after.is_open(#[trigger] after.open[k] as int));
            assert(forall|k: int, l: int|
                0 <= k < l < after.open.len() ==> (#[trigger] after.open[k]) < (#[trigger] after.open[l]));
            assert(forall|i: int| #[trigger] after.is_open(i) ==> after.listed(i));
            assert(forall|i: int|
                #[trigger] g.is_block(i) && !after.is_open(i) ==> i + 1 < after.steps[i].end()
                    <= after.steps.len());
            assert(forall|k: int, j: int|
                #![trigger after.open[k], after.steps[j]]
                0 <= k < after.open.len() && after.open[k] < j < after.steps.len() ==> !g.is_rule(j));
            assert(forall|i: int| #[trigger] g.is_rule(i) && i + 1 < after.steps.len() ==> !g.is_rule(i + 1));
            assert(forall|i: int, j: int|
                #![trigger g.is_block(i), after.steps[j]]
                g.is_block(i) && i < j < after.steps[i].end() ==> {
                    &&& !g.is_rule(j)
                    &&& !after.is_open(j)
                    &&& g.is_block(j) ==> after.steps[j].end() <= after.steps[i].end()
                });
            assert(after.sound());
        } else {
            assert(after.grammar() == self.grammar());
            assert(after.open == self.open);
            assert(after.sound());
        }
    }

    /// Where no rule from `from` on is referred to and not defined, every
    /// reference from there on leads to a rule.
    pub proof fn lemma_undefined(self, from: int)
        requires
            0 <= from,
            self.undefined(from) is None,
        ensures
            forall|i: int, s: Symbol|
                from <= i < self.steps.len() && #[trigger] self.steps[i] == Step::Reference(s)
                    ==> #[trigger] self.grammar().entry(s) is Some,
        decreases self.steps.len() - from,
    {
        if from < self.steps.len() {
            self.lemma_undefined(from + 1);
        }
    }

    /// A sound draft that comes to a grammar comes to a well-formed one.
    pub proof fn lemma_verdict(self)
        requires
            self.sound(),
            self.verdict() is Ok,
        ensures
            self.grammar().well_formed(),
    {
        let g = self.grammar();
        self.lemma_undefined(0);
        assert forall|i: int| #[trigger] g.is_block(i) implies !self.is_open(i) by {
            if self.is_open(i) {
                assert(self.listed(i));
            }
        }
        assert forall|i: int| #[trigger] g.is_rule(i) implies i + 1 < g.steps.len() && !g.is_rule(
            i + 1,
        ) by {
            if i + 1 >= g.steps.len() {
                assert(self.steps.last() == self.steps[i]);
            }
        }
    }
}

/// Lays the steps of a grammar out, call by call.
pub struct Builder {
    steps: Vec<Step>,
    open: Vec<usize>,
    entries: Vec<Option<usize>>,
    defect: Option<BuildError>,
}

impl View for Builder {
    type V = Draft;

    closed spec fn view(&self) -> Draft {
        Draft {
            steps: self.steps@,
            open: self.open@,
            entries: self.entries@,
            defect: self.defect,
        }
    }
}

impl Builder {
    #[verifier::type_invariant]
    spec fn sound(self) -> bool {
        self@.sound()
    }

    /// A builder that holds nothing yet.
    pub fn new() -> (r: Self)
        ensures
            r@ == Draft::empty(),
    {
        let entries: Vec<Option<usize>> = vec![
            None, None, None, None, None, None, None, None, None, None, None, None, None,
        ];
        let r = Builder { steps: Vec::new(), open: Vec::new(), entries, defect: None };
        proof {
            assert(r@.entries =~= Draft::empty().entries);
        }
        r
    }

    /// The builder with `defect` as what went wrong.
    fn spoil(self, defect: BuildError) -> (r: Self)
        ensures
            r@ == self@.spoiled(defect),
    {
        proof {
            use_type_invariant(&self);
        }
        let Builder { steps, open, entries, defect: _ } = self;
        Builder { steps, open, entries, defect: Some(defect) }
    }

    /// Does a rule or an open block await a step?
    fn awaits_step(&self) -> (r: bool)
        ensures
            r == self@.awaits_step(),
    {
        let n = self.steps.len();
        self.open.len() > 0 || (n > 0 && matches!(self.steps[n - 1], Step::RuleStart(_)))
    }

    /// Gives a step that is a leaf or a reference.
    fn place(self, step: Step) -> (r: Self)
        requires
            step.is_plain(),
        ensures
            r@ == self@.placed(step),
    {
        proof {
            use_type_invariant(&self);
        }
        if self.defect.is_some() {
            return self;
        }
        if !self.awaits_step() {
            return self.spoil(BuildError::StepOutsideRule);
        }
        proof {
            self@.lemma_placed(step);
        }
        let Builder { mut steps, open, entries, defect } = self;
        steps.push(step);
        Builder { steps, open, entries, defect }
    }

    /// Opens a block.
    fn open_block(self, block: Block) -> (r: Self)
        ensures
            r@ == self@.opened(block),
    {
        proof {
            use_type_invariant(&self);
        }
        if self.defect.is_some() {
            return self;
        }
        if !self.awaits_step() {
            return self.spoil(BuildError::StepOutsideRule);
        }
        // Read for its bound: the steps so far are no more than a `usize`
        // counts.
        let _ = self.steps.len();
        proof {
            self@.lemma_opened(block);
        }
        let Builder { mut steps, mut open, entries, defect } = self;
        open.push(steps.len());
        steps.push(block.make(0));
        Builder { steps, open, entries, defect }
    }

    /// Begins the rule named `symbol`. Its one child is given next.
    ///
    /// A rule may be begun again under the same name: references then lead
    /// to the later one.
    pub fn begin_rule(self, symbol: Symbol) -> (r: Self)
        ensures
            r@ == self@.rule(symbol),
    {
        proof {
            use_type_invariant(&self);
        }
        if self.defect.is_some() {
            return self;
        }
        if self.open.len() > 0 {
            return self.spoil(BuildError::RuleInsideBlock);
        }
        let n = self.steps.len();
        if n > 0 && matches!(self.steps[n - 1], Step::RuleStart(_)) {
            return self.spoil(BuildError::EmptyRule);
        }
        proof {
            self@.lemma_rule(symbol);
        }
        let Builder { mut steps, open, mut entries, defect } = self;
        entries[symbol.index()] = Some(n);
        steps.push(Step::RuleStart(symbol));
        Builder { steps, open, entries, defect }
    }

    /// Gives a step that matches one token of kind `tok`.
    pub fn literal(self, tok: Tok) -> (r: Self)
        ensures
            r@ == self@.placed(Step::Literal(tok)),
    {
        self.place(Step::Literal(tok))
    }

    /// Gives a call of the rule named `symbol`, which may be begun later.
    pub fn reference(self, symbol: Symbol) -> (r: Self)
        ensures
            r@ == self@.placed(Step::Reference(symbol)),
    {
        self.place(Step::Reference(symbol))
    }

    /// Gives a step that steps over one space token, if there is one.
    pub fn skip_space(self) -> (r: Self)
        ensures
            r@ == self@.placed(Step::SkipSpace),
    {
        self.place(Step::SkipSpace)
    }

    /// Gives a step that matches the indentation of the current level plus
    /// `offset` levels.
    pub fn indentation(self, offset: usize) -> (r: Self)
        ensures
            r@ == self@.placed(Step::Indentation(offset)),
    {
        self.place(Step::Indentation(offset))
    }

    /// Gives a step that matches where the tokens end.
    pub fn end_of_input(self) -> (r: Self)
        ensures
            r@ == self@.placed(Step::EndOfInput),
    {
        self.place(Step::EndOfInput)
    }

    /// Opens a sequence: all its children, one after the other.
    pub fn begin_sequence(self) -> (r: Self)
        ensures
            r@ == self@.opened(Block::Sequence),
    {
        self.open_block(Block::Sequence)
    }

    /// Opens a choice: the first of its children that matches.
    pub fn begin_choice(self) -> (r: Self)
        ensures
            r@ == self@.opened(Block::Choice),
    {
        self.open_block(Block::Choice)
    }

    /// Opens an optional part: its children as a sequence, or nothing.
    pub fn begin_optional(self) -> (r: Self)
        ensures
            r@ == self@.opened(Block::Optional),
    {
        self.open_block(Block::Optional)
    }

    /// Opens a repetition: its children as a sequence, as often as they
    /// match.
    pub fn begin_repeat(self) -> (r: Self)
        ensures
            r@ == self@.opened(Block::Repeat),
    {
        self.open_block(Block::Repeat)
    }

    /// Closes the innermost open block.
    pub fn end(self) -> (r: Self)
        ensures
            r@ == self@.closed(),
    {
        proof {
            use_type_invariant(&self);
        }
        if self.defect.is_some() {
            return self;
        }
        let depth = self.open.len();
        if depth == 0 {
            return self.spoil(BuildError::EndWithoutBlock);
        }
        let at = self.open[depth - 1];
        let n = self.steps.len();
        assert(self@.is_open(self@.open[depth - 1] as int));
        if at + 1 >= n {
            return self.spoil(BuildError::EmptyBlock);
        }
        proof {
            self@.lemma_closed();
        }
        let Builder { mut steps, mut open, entries, defect } = self;
        let closed = match steps[at] {
            Step::Sequence(_) => Step::Sequence(n),
            Step::Choice(_) => Step::Choice(n),
            Step::Optional(_) => Step::Optional(n),
            _ => Step::Repeat(n),
        };
        steps[at] = closed;
        open.pop();
        Builder { steps, open, entries, defect }
    }

    /// The first rule from step `from` on that is referred to and not
    /// defined.
    fn find_undefined(&self) -> (r: Option<Symbol>)
        ensures
            r == self@.undefined(0),
    {
        proof {
            use_type_invariant(self);
        }
        let n = self.steps.len();
        let mut i: usize = 0;
        while i < n
            invariant
                n == self.steps@.len(),
                self.entries@.len() == SYMBOLS,
                i <= n,
                self@.undefined(0) == self@.undefined(i as int),
            decreases n - i,
        {
            if let Step::Reference(symbol) = self.steps[i] {
                if self.entries[symbol.index()].is_none() {
                    return Some(symbol);
                }
            }
            i += 1;
        }
        None
    }

    /// Hands out the program, or says what is wrong with the grammar: the
    /// first thing that went wrong while it was laid out, or else a block
    /// left open, a rule without its child, or the first reference to a rule
    /// that was never begun.
    pub fn build(self) -> (r: Result<Program, BuildError>)
        ensures
            match r {
                Ok(program) => self@.verdict() == Ok::<Grammar, BuildError>(program@)
                    && program@.well_formed(),
                Err(defect) => self@.verdict() == Err::<Grammar, BuildError>(defect),
            },
    {
        proof {
            use_type_invariant(&self);
        }
        if let Some(defect) = self.defect {
            return Err(defect);
        }
        if self.open.len() > 0 {
            return Err(BuildError::UnterminatedBlock);
        }
        let n = self.steps.len();
        if n > 0 && matches!(self.steps[n - 1], Step::RuleStart(_)) {
            return Err(BuildError::EmptyRule);
        }
        if let Some(symbol) = self.find_undefined() {
            return Err(BuildError::UndefinedReference(symbol));
        }
        proof {
            self@.lemma_verdict();
        }
        let Builder { steps, open: _, entries, defect: _ } = self;
        Ok(Program { steps, entries })
    }
}

} // verus!

