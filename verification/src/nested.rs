//! What a nested grammar matches.
//!
//! [`Parse::walk`] says what a tree matches, by recursion over the tree
//! itself: it reads no index at which a block ends. A program that holds
//! the steps of some trees matches what the trees match
//! ([`Parse::law_walk`], [`Parse::law_nested`]), and a builder that is given
//! rules with their trees holds the steps of those trees
//! ([`law_rule_carried`]).
use crate::grammar::{Block, Draft, Grammar, Step, Symbol, SYMBOLS};
use crate::nesting::{
    all_shaped, flatten, flatten_all, law_round_trip, lemma_flatten_all_len, lemma_flatten_len,
    rest, shaped, size, size_all, Tree,
};
use crate::semantics::{Outcome, Parse, Verdict};
use vstd::prelude::*;

verus! {

/// Does a grammar hold these rules? Each rule that the grammar knows has
/// its tree, whose steps stand after the rule's entry; the grammar knows no
/// other rule.
pub open spec fn carries(g: Grammar, rules: Map<Symbol, Tree>) -> bool {
    forall|symbol: Symbol|
        match #[trigger] g.entry(symbol) {
            Some(entry) => {
                &&& rules.dom().contains(symbol)
                &&& shaped(rules[symbol])
                &&& g.steps[entry as int] == Step::RuleStart(symbol)
                &&& entry + 1 + size(rules[symbol]) <= g.steps.len()
                &&& g.steps.subrange(entry + 1, entry + 1 + size(rules[symbol])) == flatten(
                    rules[symbol],
                    entry + 1,
                )
            },
            None => !rules.dom().contains(symbol),
        }
}

impl Parse {
    /// The outcome of a rule's tree, tried at position `pos` inside
    /// `depth` open levels, the rule's own level not counted.
    pub open spec fn walk_rule(
        self,
        rules: Map<Symbol, Tree>,
        symbol: Symbol,
        pos: int,
        depth: nat,
        room: nat,
    ) -> Outcome {
        let inner = if symbol.nests() {
            depth + 1
        } else {
            depth
        };
        self.walk(rules, rules[symbol], pos, inner as nat, room).enclosed()
    }

    /// The outcome of a tree, tried at position `pos` of the tokens.
    pub open spec fn walk(
        self,
        rules: Map<Symbol, Tree>,
        tree: Tree,
        pos: int,
        depth: nat,
        room: nat,
    ) -> Outcome
        decreases room, tree, 0int,
    {
        match tree {
            Tree::Leaf(Step::Reference(symbol)) => {
                if pos >= self.len() || !rules.dom().contains(symbol) {
                    Outcome::failed(pos, 1)
                } else if room == 0 {
                    Outcome { verdict: Verdict::Abandoned, pos, work: 1 }
                } else {
                    let inner = if symbol.nests() {
                        depth + 1
                    } else {
                        depth
                    };
                    self.walk(
                        rules,
                        rules[symbol],
                        pos,
                        inner as nat,
                        (room - 1) as nat,
                    ).enclosed().enclosed()
                }
            },
            Tree::Leaf(step) => self.leaf(step, pos, depth),
            Tree::Group(Block::Sequence, children) => {
                let body = self.walk_all(rules, children, pos, depth, room);
                match body.verdict {
                    Verdict::Failed => Outcome::failed(pos, body.work + 1),
                    _ => body.after(1),
                }
            },
            Tree::Group(Block::Choice, children) => self.walk_any(
                rules,
                children,
                pos,
                depth,
                room,
            ).after(1),
            Tree::Group(Block::Optional, children) => {
                let body = self.walk_all(rules, children, pos, depth, room);
                match body.verdict {
                    Verdict::Failed => Outcome::matched(pos, body.work + 1),
                    _ => body.after(1),
                }
            },
            Tree::Group(Block::Repeat, children) => self.walk_loop(
                rules,
                children,
                pos,
                depth,
                room,
                (self.len() - pos) as nat,
            ).after(1),
        }
    }

    /// The outcome of some trees, one after the other.
    pub open spec fn walk_all(
        self,
        rules: Map<Symbol, Tree>,
        trees: Seq<Tree>,
        pos: int,
        depth: nat,
        room: nat,
    ) -> Outcome
        decreases room, trees, 1int,
    {
        if trees.len() == 0 {
            Outcome::matched(pos, 0)
        } else {
            let first = self.walk(rules, trees[0], pos, depth, room);
            match first.verdict {
                Verdict::Matched => self.walk_all(rules, rest(trees), first.pos, depth, room).after(
                    first.work + 1,
                ),
                Verdict::Failed => first.after(1),
                Verdict::Abandoned => first,
            }
        }
    }

    /// The outcome of the first of some trees that matches.
    pub open spec fn walk_any(
        self,
        rules: Map<Symbol, Tree>,
        trees: Seq<Tree>,
        pos: int,
        depth: nat,
        room: nat,
    ) -> Outcome
        decreases room, trees, 1int,
    {
        if trees.len() == 0 {
            Outcome::failed(pos, 0)
        } else {
            let first = self.walk(rules, trees[0], pos, depth, room);
            match first.verdict {
                Verdict::Matched => first.after(1),
                Verdict::Failed => self.walk_any(rules, rest(trees), pos, depth, room).after(
                    first.work + 1,
                ),
                Verdict::Abandoned => first,
            }
        }
    }

    /// The outcome of the trees of a repetition, round after round, with
    /// `left` tokens after `pos`.
    pub open spec fn walk_loop(
        self,
        rules: Map<Symbol, Tree>,
        trees: Seq<Tree>,
        pos: int,
        depth: nat,
        room: nat,
        left: nat,
    ) -> Outcome
        decreases room, trees, 2 + left,
    {
        let round = self.walk_all(rules, trees, pos, depth, room);
        match round.verdict {
            Verdict::Matched => if pos < round.pos <= self.len() && left == self.len() - pos {
                self.walk_loop(
                    rules,
                    trees,
                    round.pos,
                    depth,
                    room,
                    (self.len() - round.pos) as nat,
                ).after(round.work)
            } else {
                round
            },
            Verdict::Failed => Outcome::matched(pos, round.work),
            Verdict::Abandoned => round,
        }
    }
}


/// The first step of a tree is no rule's entry.
pub proof fn lemma_first_step(tree: Tree, base: int)
    requires
        shaped(tree),
    ensures
        flatten(tree, base).len() >= 1,
        !flatten(tree, base)[0].is_rule(),
{
    lemma_flatten_len(tree, base);
}

impl Parse {
    /// A program matches at the steps of a tree what the tree matches.
    pub proof fn law_walk(
        self,
        rules: Map<Symbol, Tree>,
        at: int,
        tree: Tree,
        pos: int,
        depth: nat,
        room: nat,
    )
        requires
            carries(self.grammar, rules),
            self.steps().len() <= usize::MAX,
            shaped(tree),
            0 <= at,
            at + size(tree) <= self.steps().len(),
            self.steps().subrange(at, at + size(tree)) == flatten(tree, at),
        ensures
            self.eval(at, pos, depth, room) == self.walk(rules, tree, pos, depth, room),
        decreases room, tree, 0int,
    {
        lemma_flatten_len(tree, at);
        let window = self.steps().subrange(at, at + size(tree));
        assert(window[0] == self.steps()[at]);
        match tree {
            Tree::Leaf(step) => {
                assert(flatten(tree, at)[0] == step);
                if let Step::Reference(symbol) = step {
                    if pos < self.len() && room > 0 {
                        if let Some(entry) = self.grammar.entry(symbol) {
                            let e = entry as int;
                            let inner: nat = if symbol.nests() {
                                depth + 1
                            } else {
                                depth
                            };
                            lemma_first_step(rules[symbol], e + 1);
                            let body = self.steps().subrange(e + 1, e + 1 + size(rules[symbol]));
                            assert(body[0] == self.steps()[e + 1]);
                            assert(!self.grammar.is_rule(e + 1));
                            self.law_walk(
                                rules,
                                e + 1,
                                rules[symbol],
                                pos,
                                inner,
                                (room - 1) as nat,
                            );
                            assert(self.eval(e, pos, depth, (room - 1) as nat) == self.eval(
                                e + 1,
                                pos,
                                inner,
                                (room - 1) as nat,
                            ).enclosed());
                        }
                    }
                }
            },
            Tree::Group(block, children) => {
                let end = at + 1 + size_all(children);
                lemma_flatten_all_len(children, at + 1);
                assert(flatten(tree, at)[0] == block.step(end as usize));
                assert(self.steps()[at].end() == end);
                assert(self.grammar.is_block(at));
                assert(self.steps().subrange(at + 1, end) =~= flatten_all(children, at + 1)) by {
                    assert forall|i: int| 0 <= i < end - at - 1 implies #[trigger] self.steps().subrange(
                        at + 1,
                        end,
                    )[i] == flatten_all(children, at + 1)[i] by {
                        assert(window[i + 1] == self.steps()[at + 1 + i]);
                    }
                }
                match block {
                    Block::Sequence => self.lemma_walk_all(
                        rules,
                        at + 1,
                        end,
                        children,
                        pos,
                        depth,
                        room,
                    ),
                    Block::Optional => self.lemma_walk_all(
                        rules,
                        at + 1,
                        end,
                        children,
                        pos,
                        depth,
                        room,
                    ),
                    Block::Choice => self.lemma_walk_any(
                        rules,
                        at + 1,
                        end,
                        children,
                        pos,
                        depth,
                        room,
                    ),
                    Block::Repeat => self.lemma_walk_loop(
                        rules,
                        at,
                        end,
                        children,
                        pos,
                        depth,
                        room,
                    ),
                }
            },
        }
    }

    /// The steps of the first of some trees, and those of the others.
    proof fn lemma_split(self, at: int, end: int, trees: Seq<Tree>)
        requires
            all_shaped(trees),
            trees.len() > 0,
            0 <= at,
            end == at + size_all(trees),
            end <= self.steps().len() <= usize::MAX,
            self.steps().subrange(at, end) == flatten_all(trees, at),
        ensures
            at < at + size(trees[0]) <= end,
            self.steps().subrange(at, at + size(trees[0])) == flatten(trees[0], at),
            self.steps().subrange(at + size(trees[0]), end) == flatten_all(
                rest(trees),
                at + size(trees[0]),
            ),
            self.after(at) == at + size(trees[0]),
    {
        let first = trees[0];
        let next = at + size(first);
        lemma_flatten_len(first, at);
        lemma_flatten_all_len(rest(trees), next);
        let window = self.steps().subrange(at, end);
        assert(self.steps().subrange(at, next) =~= flatten(first, at)) by {
            assert forall|i: int| 0 <= i < next - at implies #[trigger] self.steps().subrange(
                at,
                next,
            )[i] == flatten(first, at)[i] by {
                assert(window[i] == self.steps()[at + i]);
            }
        }
        assert(self.steps().subrange(next, end) =~= flatten_all(rest(trees), next)) by {
            assert forall|i: int| 0 <= i < end - next implies #[trigger] self.steps().subrange(
                next,
                end,
            )[i] == flatten_all(rest(trees), next)[i] by {
                assert(window[i + size(first)] == self.steps()[next + i]);
            }
        }
        law_round_trip(self.grammar, at, first);
        lemma_first_step(first, at);
        assert(self.steps().subrange(at, next)[0] == self.steps()[at]);
    }

    proof fn lemma_walk_all(
        self,
        rules: Map<Symbol, Tree>,
        at: int,
        end: int,
        trees: Seq<Tree>,
        pos: int,
        depth: nat,
        room: nat,
    )
        requires
            carries(self.grammar, rules),
            all_shaped(trees),
            0 <= at,
            end == at + size_all(trees),
            end <= self.steps().len() <= usize::MAX,
            self.steps().subrange(at, end) == flatten_all(trees, at),
        ensures
            self.eval_all(at, end, pos, depth, room) == self.walk_all(
                rules,
                trees,
                pos,
                depth,
                room,
            ),
        decreases room, trees, 1int,
    {
        if trees.len() > 0 {
            self.lemma_split(at, end, trees);
            let next = at + size(trees[0]);
            self.law_walk(rules, at, trees[0], pos, depth, room);
            let first = self.eval(at, pos, depth, room);
            if first.verdict is Matched {
                self.lemma_walk_all(rules, next, end, rest(trees), first.pos, depth, room);
            }
        }
    }

    proof fn lemma_walk_any(
        self,
        rules: Map<Symbol, Tree>,
        at: int,
        end: int,
        trees: Seq<Tree>,
        pos: int,
        depth: nat,
        room: nat,
    )
        requires
            carries(self.grammar, rules),
            all_shaped(trees),
            0 <= at,
            end == at + size_all(trees),
            end <= self.steps().len() <= usize::MAX,
            self.steps().subrange(at, end) == flatten_all(trees, at),
        ensures
            self.eval_any(at, end, pos, depth, room) == self.walk_any(
                rules,
                trees,
                pos,
                depth,
                room,
            ),
        decreases room, trees, 1int,
    {
        if trees.len() > 0 {
            self.lemma_split(at, end, trees);
            let next = at + size(trees[0]);
            self.law_walk(rules, at, trees[0], pos, depth, room);
            let first = self.eval(at, pos, depth, room);
            if first.verdict is Failed {
                self.lemma_walk_any(rules, next, end, rest(trees), pos, depth, room);
            }
        }
    }

    proof fn lemma_walk_loop(
        self,
        rules: Map<Symbol, Tree>,
        at: int,
        end: int,
        trees: Seq<Tree>,
        pos: int,
        depth: nat,
        room: nat,
    )
        requires
            carries(self.grammar, rules),
            all_shaped(trees),
            trees.len() > 0,
            0 <= at,
            end == at + 1 + size_all(trees),
            end <= self.steps().len() <= usize::MAX,
            self.steps().subrange(at + 1, end) == flatten_all(trees, at + 1),
        ensures
            self.eval_loop(at, end, pos, depth, room) == self.walk_loop(
                rules,
                trees,
                pos,
                depth,
                room,
                (self.len() - pos) as nat,
            ),
        decreases room, trees, 2 + (self.len() - pos) as nat,
    {
        lemma_flatten_all_len(trees, at + 1);
        self.lemma_walk_all(rules, at + 1, end, trees, pos, depth, room);
        let round = self.eval_all(at + 1, end, pos, depth, room);
        if round.verdict is Matched && pos < round.pos <= self.len() {
            self.lemma_walk_loop(rules, at, end, trees, round.pos, depth, room);
        }
    }

    /// The outcome of a parse by a program that holds some rules is the
    /// outcome of the tree of the rule that is entered.
    pub proof fn law_nested(self, rules: Map<Symbol, Tree>, entry: Symbol)
        requires
            carries(self.grammar, rules),
            self.steps().len() <= usize::MAX,
        ensures
            self.outcome(entry) == if rules.dom().contains(entry) {
                self.walk_rule(rules, entry, 0, 0, self.limit())
            } else {
                Outcome::failed(0, 0)
            },
    {
        if let Some(at) = self.grammar.entry(entry) {
            let e = at as int;
            let inner: nat = if entry.nests() {
                1
            } else {
                0
            };
            lemma_first_step(rules[entry], e + 1);
            let body = self.steps().subrange(e + 1, e + 1 + size(rules[entry]));
            assert(body[0] == self.steps()[e + 1]);
            assert(!self.grammar.is_rule(e + 1));
            self.law_walk(rules, e + 1, rules[entry], 0, inner, self.limit());
        }
    }
}


/// No step of a tree is a rule's entry.
pub proof fn lemma_no_rule(tree: Tree, base: int, i: int)
    requires
        shaped(tree),
        0 <= i < flatten(tree, base).len(),
    ensures
        !flatten(tree, base)[i].is_rule(),
    decreases tree,
{
    match tree {
        Tree::Leaf(_) => {},
        Tree::Group(_, children) => {
            if i > 0 {
                lemma_no_rule_all(children, base + 1, i - 1);
            }
        },
    }
}

/// No step of some trees is a rule's entry.
pub proof fn lemma_no_rule_all(trees: Seq<Tree>, base: int, i: int)
    requires
        all_shaped(trees),
        0 <= i < flatten_all(trees, base).len(),
    ensures
        !flatten_all(trees, base)[i].is_rule(),
    decreases trees,
{
    if trees.len() > 0 {
        lemma_flatten_len(trees[0], base);
        if i < size(trees[0]) {
            lemma_no_rule(trees[0], base, i);
        } else {
            lemma_no_rule_all(rest(trees), base + size(trees[0]), i - size(trees[0]));
        }
    }
}

/// A draft with nothing in it holds no rules.
pub proof fn law_none_carried()
    ensures
        carries(Draft::empty().grammar(), Map::empty()),
{
    assert forall|symbol: Symbol| Draft::empty().grammar().entry(symbol) is None by {
        assert(0 <= symbol.ord() < SYMBOLS);
    }
}

/// A builder that holds some rules and is given one more, as a rule begun
/// and a tree, holds that rule too, in place of an earlier one of its name.
pub proof fn law_rule_carried(draft: Draft, rules: Map<Symbol, Tree>, symbol: Symbol, tree: Tree)
    requires
        carries(draft.grammar(), rules),
        draft.entries.len() == SYMBOLS,
        draft.defect is None,
        draft.open.len() == 0,
        !(draft.steps.len() > 0 && draft.steps.last().is_rule()),
        shaped(tree),
        draft.steps.len() + 1 + size(tree) <= usize::MAX,
    ensures
        ({
            let after = draft.rule(symbol).given(tree);
            &&& carries(after.grammar(), rules.insert(symbol, tree))
            &&& after.entries.len() == SYMBOLS
            &&& after.defect is None
            &&& after.open.len() == 0
            &&& after.steps.len() == draft.steps.len() + 1 + size(tree)
            &&& !after.steps.last().is_rule()
        }),
{
    let n = draft.steps.len() as int;
    let begun = draft.rule(symbol);
    assert(begun.steps.last() == Step::RuleStart(symbol));
    begun.law_given(tree);
    lemma_flatten_len(tree, n + 1);
    let after = begun.given(tree);
    let g = after.grammar();
    let grown = rules.insert(symbol, tree);
    lemma_no_rule(tree, n + 1, size(tree) - 1);
    assert(after.steps.last() == flatten(tree, n + 1)[size(tree) - 1]);
    assert forall|s: Symbol|
        match #[trigger] g.entry(s) {
            Some(entry) => {
                &&& grown.dom().contains(s)
                &&& shaped(grown[s])
                &&& g.steps[entry as int] == Step::RuleStart(s)
                &&& entry + 1 + size(grown[s]) <= g.steps.len()
                &&& g.steps.subrange(entry + 1, entry + 1 + size(grown[s])) == flatten(
                    grown[s],
                    entry + 1,
                )
            },
            None => !grown.dom().contains(s),
        } by {
        if s == symbol {
            assert(g.entry(s) == Some(n as usize));
            assert(g.steps[n] == Step::RuleStart(symbol));
            assert(g.steps.subrange(n + 1, n + 1 + size(tree)) =~= flatten(tree, n + 1));
        } else {
            assert(s.ord() != symbol.ord());
            assert(g.entry(s) == draft.grammar().entry(s));
            if let Some(entry) = draft.grammar().entry(s) {
                let old = draft.steps.subrange(entry + 1, entry + 1 + size(rules[s]));
                assert(g.steps.subrange(entry + 1, entry + 1 + size(rules[s])) =~= old);
                assert(g.steps[entry as int] == draft.steps[entry as int]);
            }
        }
    }
}

} // verus!


