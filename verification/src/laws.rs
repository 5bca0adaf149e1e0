//! What holds of every parse.
//!
//! The laws are stated of [`Parse::eval`], which the interpreter computes:
//! they hold of every program and of every sequence of tokens.
use crate::grammar::{Step, Symbol};
use crate::semantics::{Outcome, Parse, Verdict};
use vstd::prelude::*;

verus! {

impl Parse {
    /// The outcome of a parse lies in the program, the tokens, their places,
    /// the width of a level and the rule alone: two parses that agree in
    /// these end alike.
    pub proof fn law_deterministic(self, other: Parse, entry: Symbol)
        requires
            self.grammar.steps == other.grammar.steps,
            self.grammar.entries == other.grammar.entries,
            self.source.toks == other.source.toks,
            self.source.metas == other.source.metas,
            self.source.unit == other.source.unit,
            self.room == other.room,
        ensures
            self.outcome(entry) == other.outcome(entry),
    {
        assert(self.grammar == other.grammar);
        assert(self.source == other.source);
        assert(self == other);
    }

    /// A step that matches ends at or after the position at which it was
    /// tried, and within the tokens. A step that fails leaves the position
    /// at which it was tried.
    pub proof fn law_backtrack(self, at: int, pos: int, depth: nat, room: nat)
        requires
            0 <= pos <= self.len(),
        ensures
            match self.eval(at, pos, depth, room).verdict {
                Verdict::Matched => pos <= self.eval(at, pos, depth, room).pos <= self.len(),
                Verdict::Failed => self.eval(at, pos, depth, room).pos == pos,
                Verdict::Abandoned => true,
            },
        decreases room, self.after(at) - at, self.len() - pos, 0int,
    {
        if 0 <= at < self.steps().len() {
            match self.steps()[at] {
                Step::RuleStart(symbol) => {
                    if !self.grammar.is_rule(at + 1) {
                        let depth = if symbol.nests() {
                            depth + 1
                        } else {
                            depth
                        };
                        self.law_backtrack(at + 1, pos, depth as nat, room);
                    }
                },
                Step::Reference(symbol) => {
                    if pos < self.len() && room > 0 {
                        if let Some(entry) = self.grammar.entry(symbol) {
                            self.law_backtrack(entry as int, pos, depth, (room - 1) as nat);
                        }
                    }
                },
                Step::Sequence(end) => {
                    if at + 1 < end {
                        self.lemma_all_bounds(at + 1, end as int, pos, depth, room);
                    }
                },
                Step::Choice(end) => {
                    if at + 1 < end {
                        self.lemma_any_bounds(at + 1, end as int, pos, depth, room);
                    }
                },
                Step::Optional(end) => {
                    if at + 1 < end {
                        self.lemma_all_bounds(at + 1, end as int, pos, depth, room);
                    }
                },
                Step::Repeat(end) => {
                    if at + 1 < end {
                        self.lemma_loop_bounds(at, end as int, pos, depth, room);
                    }
                },
                _ => {},
            }
        }
    }

    /// Steps that match one after the other end at or after the position at
    /// which the first was tried, and within the tokens.
    pub proof fn lemma_all_bounds(self, at: int, end: int, pos: int, depth: nat, room: nat)
        requires
            0 <= pos <= self.len(),
        ensures
            self.eval_all(at, end, pos, depth, room).verdict is Matched ==> pos <= self.eval_all(
                at,
                end,
                pos,
                depth,
                room,
            ).pos <= self.len(),
        decreases room, end - at, self.len() - pos, 1int,
    {
        if at < end && self.after(at) <= end {
            self.law_backtrack(at, pos, depth, room);
            let first = self.eval(at, pos, depth, room);
            if first.verdict is Matched {
                self.lemma_all_bounds(self.after(at), end, first.pos, depth, room);
            }
        }
    }

    /// The first of some steps that matches ends at or after the position
    /// at which they were tried; where none matches, the position stays.
    pub proof fn lemma_any_bounds(self, at: int, end: int, pos: int, depth: nat, room: nat)
        requires
            0 <= pos <= self.len(),
        ensures
            match self.eval_any(at, end, pos, depth, room).verdict {
                Verdict::Matched => pos <= self.eval_any(at, end, pos, depth, room).pos
                    <= self.len(),
                Verdict::Failed => self.eval_any(at, end, pos, depth, room).pos == pos,
                Verdict::Abandoned => true,
            },
        decreases room, end - at, self.len() - pos, 1int,
    {
        if at < end && self.after(at) <= end {
            self.law_backtrack(at, pos, depth, room);
            let first = self.eval(at, pos, depth, room);
            if first.verdict is Failed {
                self.lemma_any_bounds(self.after(at), end, pos, depth, room);
            }
        }
    }

    /// A repetition never fails, and ends at or after the position at which
    /// it was tried.
    pub proof fn lemma_loop_bounds(self, at: int, end: int, pos: int, depth: nat, room: nat)
        requires
            0 <= pos <= self.len(),
            at + 1 < end,
        ensures
            !(self.eval_loop(at, end, pos, depth, room).verdict is Failed),
            self.eval_loop(at, end, pos, depth, room).verdict is Matched ==> pos
                <= self.eval_loop(at, end, pos, depth, room).pos <= self.len(),
        decreases room, end - at - 1, self.len() - pos, 2int,
    {
        self.lemma_all_bounds(at + 1, end, pos, depth, room);
        let round = self.eval_all(at + 1, end, pos, depth, room);
        if round.verdict is Matched && pos < round.pos <= self.len() {
            self.lemma_loop_bounds(at, end, round.pos, depth, room);
        }
    }

    /// Of the children of a choice, the first decides: where it matches,
    /// the choice ends as it does; where it fails, the choice ends as the
    /// choice among the others does.
    pub proof fn law_ordered_choice(self, at: int, pos: int, depth: nat, room: nat)
        requires
            self.grammar.well_formed(),
            self.grammar.is_block(at),
            self.steps()[at] is Choice,
        ensures
            ({
                let first = self.eval(at + 1, pos, depth, room);
                let whole = self.eval(at, pos, depth, room);
                let others = self.eval_any(
                    self.after(at + 1),
                    self.steps()[at].end(),
                    pos,
                    depth,
                    room,
                );
                match first.verdict {
                    Verdict::Matched => whole.same(first),
                    Verdict::Failed => whole.same(others),
                    Verdict::Abandoned => whole.verdict is Abandoned,
                }
            }),
    {
        let end = self.steps()[at].end();
        assert(self.grammar.is_block(at));
        assert(at + 1 < end <= self.steps().len());
        assert(self.steps()[at + 1] == self.steps()[at + 1]);
        assert(!self.grammar.is_rule(at + 1));
        assert(self.after(at + 1) <= end);
        let first = self.eval(at + 1, pos, depth, room);
        let any = self.eval_any(at + 1, end, pos, depth, room);
        assert(self.eval(at, pos, depth, room) == any.after(1));
        assert(any == match first.verdict {
            Verdict::Matched => first.after(1),
            Verdict::Failed => self.eval_any(self.after(at + 1), end, pos, depth, room).after(
                first.work + 1,
            ),
            Verdict::Abandoned => first,
        });
    }

    /// Where the last child of a choice is reached, the choice ends as that
    /// child does, but for the position, which a failed choice leaves where
    /// it was tried.
    pub proof fn law_last_choice(self, at: int, end: int, pos: int, depth: nat, room: nat)
        requires
            at < end,
            self.after(at) == end,
        ensures
            ({
                let last = self.eval(at, pos, depth, room);
                let rest = self.eval_any(at, end, pos, depth, room);
                rest.verdict == last.verdict && (last.verdict is Matched ==> rest.pos == last.pos)
                    && (last.verdict is Failed ==> rest.pos == pos)
            }),
    {
        reveal_with_fuel(Parse::eval_any, 2);
    }

    /// An optional part never fails. Where its children match, it ends
    /// where they do; where one of them fails, it ends where it was tried.
    pub proof fn law_optional(self, at: int, pos: int, depth: nat, room: nat)
        requires
            self.grammar.well_formed(),
            self.grammar.is_block(at),
            self.steps()[at] is Optional,
        ensures
            ({
                let body = self.eval_all(at + 1, self.steps()[at].end(), pos, depth, room);
                let whole = self.eval(at, pos, depth, room);
                match body.verdict {
                    Verdict::Matched => whole.verdict is Matched && whole.pos == body.pos,
                    Verdict::Failed => whole.verdict is Matched && whole.pos == pos,
                    Verdict::Abandoned => whole.verdict is Abandoned,
                }
            }),
            !(self.eval(at, pos, depth, room).verdict is Abandoned) ==> self.eval(
                at,
                pos,
                depth,
                room,
            ).verdict is Matched,
    {
        assert(self.grammar.is_block(at));
    }

    /// A sequence that fails leaves the position at which it was tried,
    /// whichever of its children failed; one that matches ends where its
    /// children do.
    pub proof fn law_sequence(self, at: int, pos: int, depth: nat, room: nat)
        requires
            self.grammar.well_formed(),
            self.grammar.is_block(at),
            self.steps()[at] is Sequence,
        ensures
            ({
                let body = self.eval_all(at + 1, self.steps()[at].end(), pos, depth, room);
                let whole = self.eval(at, pos, depth, room);
                match body.verdict {
                    Verdict::Matched => whole.verdict is Matched && whole.pos == body.pos,
                    Verdict::Failed => whole.verdict is Failed && whole.pos == pos,
                    Verdict::Abandoned => whole.verdict is Abandoned,
                }
            }),
    {
        assert(self.grammar.is_block(at));
    }

    /// The position after `k` rounds of the repetition at `at`, the first
    /// of which begins at `pos`.
    pub open spec fn rounds(self, at: int, pos: int, depth: nat, room: nat, k: nat) -> int
        decreases k,
    {
        if k == 0 {
            pos
        } else {
            self.round(at, self.rounds(at, pos, depth, room, (k - 1) as nat), depth, room).pos
        }
    }

    /// The outcome of one round of the repetition at `at` that begins at
    /// `pos`: its children, one after the other.
    pub open spec fn round(self, at: int, pos: int, depth: nat, room: nat) -> Outcome {
        self.eval_all(at + 1, self.steps()[at].end(), pos, depth, room)
    }

    /// Rounds from after the first round are the rounds after it.
    proof fn lemma_rounds_shift(self, at: int, pos: int, depth: nat, room: nat, k: nat)
        ensures
            self.rounds(at, pos, depth, room, k + 1) == self.rounds(
                at,
                self.round(at, pos, depth, room).pos,
                depth,
                room,
                k,
            ),
        decreases k,
    {
        reveal_with_fuel(Parse::rounds, 2);
        if k > 0 {
            self.lemma_rounds_shift(at, pos, depth, room, (k - 1) as nat);
        }
    }

    /// Where a round ends at the position at which it began, so does every
    /// round after it.
    proof fn lemma_rounds_stuck(self, at: int, pos: int, depth: nat, room: nat, k: nat)
        requires
            self.round(at, pos, depth, room).pos == pos,
        ensures
            self.rounds(at, pos, depth, room, k) == pos,
        decreases k,
    {
        if k > 0 {
            self.lemma_rounds_stuck(at, pos, depth, room, (k - 1) as nat);
        }
    }

    /// A repetition whose first `k` rounds match, and whose next round
    /// fails, matches and ends where those `k` rounds end.
    pub proof fn law_repeat(self, at: int, pos: int, depth: nat, room: nat, k: nat)
        requires
            self.grammar.well_formed(),
            self.grammar.is_block(at),
            self.steps()[at] is Repeat,
            0 <= pos <= self.len(),
            forall|i: nat|
                i < k ==> self.round(
                    at,
                    #[trigger] self.rounds(at, pos, depth, room, i),
                    depth,
                    room,
                ).verdict is Matched,
            self.round(at, self.rounds(at, pos, depth, room, k), depth, room).verdict is Failed,
        ensures
            self.eval(at, pos, depth, room).verdict is Matched,
            self.eval(at, pos, depth, room).pos == self.rounds(at, pos, depth, room, k),
    {
        assert(self.grammar.is_block(at));
        self.lemma_repeat(at, pos, depth, room, k);
    }

    proof fn lemma_repeat(self, at: int, pos: int, depth: nat, room: nat, k: nat)
        requires
            at + 1 < self.steps()[at].end(),
            0 <= pos <= self.len(),
            forall|i: nat|
                i < k ==> self.round(
                    at,
                    #[trigger] self.rounds(at, pos, depth, room, i),
                    depth,
                    room,
                ).verdict is Matched,
            self.round(at, self.rounds(at, pos, depth, room, k), depth, room).verdict is Failed,
        ensures
            self.eval_loop(at, self.steps()[at].end(), pos, depth, room).verdict is Matched,
            self.eval_loop(at, self.steps()[at].end(), pos, depth, room).pos == self.rounds(
                at,
                pos,
                depth,
                room,
                k,
            ),
        decreases k,
    {
        let end = self.steps()[at].end();
        let first = self.round(at, pos, depth, room);
        if k > 0 {
            assert(self.rounds(at, pos, depth, room, 0) == pos);
            assert(first.verdict is Matched);
            self.lemma_all_bounds(at + 1, end, pos, depth, room);
            if first.pos == pos {
                self.lemma_rounds_stuck(at, pos, depth, room, k);
            } else {
                assert forall|i: nat| i < (k - 1) as nat implies self.round(
                    at,
                    #[trigger] self.rounds(at, first.pos, depth, room, i),
                    depth,
                    room,
                ).verdict is Matched by {
                    self.lemma_rounds_shift(at, pos, depth, room, i);
                    assert(self.round(
                        at,
                        self.rounds(at, pos, depth, room, i + 1),
                        depth,
                        room,
                    ).verdict is Matched);
                }
                self.lemma_rounds_shift(at, pos, depth, room, (k - 1) as nat);
                self.lemma_repeat(at, first.pos, depth, room, (k - 1) as nat);
            }
        }
    }

    /// The index of the child of the rule named `entry`.
    pub open spec fn child_of(self, entry: Symbol) -> int {
        self.grammar.entry(entry).unwrap() + 1
    }

    /// The open levels inside the rule named `entry`, entered with none
    /// open.
    pub open spec fn level_of(entry: Symbol) -> nat {
        if entry.nests() {
            1
        } else {
            0
        }
    }

    /// A parse from a rule that is a repetition whose first `k` rounds match,
    /// and whose next round fails, takes the tokens of those `k` rounds:
    /// none where the first round fails.
    pub proof fn law_repeat_takes(self, entry: Symbol, k: nat)
        requires
            self.grammar.well_formed(),
            self.grammar.entry(entry) is Some,
            self.steps()[self.child_of(entry)] is Repeat,
            forall|i: nat|
                i < k ==> self.round(
                    self.child_of(entry),
                    #[trigger] self.rounds(
                        self.child_of(entry),
                        0,
                        Self::level_of(entry),
                        self.limit(),
                        i,
                    ),
                    Self::level_of(entry),
                    self.limit(),
                ).verdict is Matched,
            self.round(
                self.child_of(entry),
                self.rounds(self.child_of(entry), 0, Self::level_of(entry), self.limit(), k),
                Self::level_of(entry),
                self.limit(),
            ).verdict is Failed,
        ensures
            self.outcome(entry).taken() == Some(
                self.rounds(self.child_of(entry), 0, Self::level_of(entry), self.limit(), k) as usize,
            ),
    {
        let at = self.grammar.entry(entry).unwrap() as int;
        assert(self.grammar.is_rule(at));
        assert(self.grammar.is_block(at + 1));
        self.law_repeat(at + 1, 0, Self::level_of(entry), self.limit(), k);
    }

    /// A repetition never fails.
    pub proof fn law_repeat_never_fails(self, at: int, pos: int, depth: nat, room: nat)
        requires
            self.grammar.well_formed(),
            self.grammar.is_block(at),
            self.steps()[at] is Repeat,
            0 <= pos <= self.len(),
        ensures
            !(self.eval(at, pos, depth, room).verdict is Failed),
            !(self.eval(at, pos, depth, room).verdict is Abandoned) ==> self.eval(
                at,
                pos,
                depth,
                room,
            ).verdict is Matched,
    {
        assert(self.grammar.is_block(at));
        self.lemma_loop_bounds(at, self.steps()[at].end(), pos, depth, room);
    }
}

} // verus!
