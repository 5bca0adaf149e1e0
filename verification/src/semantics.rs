//! What a program matches.
//!
//! The meaning of a program is given here as a mathematical function, by
//! recursion over the nesting of its steps: [`Parse::eval`] says for a
//! step, a position in the tokens and the rules that are open around it,
//! whether the step matches there and where the match ends. The interpreter
//! computes the same function with two stacks in place of the recursion.
//!
//! Two decisions keep every parse finite.
//! * A repetition ends, matched, after a round that matched without taking
//!   a token.
//! * Calls of rules nest no deeper than there is room for. A parse that
//!   would nest deeper is abandoned, and its result is that of a failed
//!   parse. The room that [`Parse::of`] gives cuts no parse that ends:
//!   whatever ends with more room ends within it ([`Parse::law_limit`]).
use crate::grammar::{Grammar, Step, Symbol, SYMBOLS};
use crate::tokenize::{Tok, TokMeta};
use vstd::prelude::*;

verus! {

/// What is parsed: the tokens, where each of them stands, and the number of
/// spaces that make one level of indentation.
pub struct Source {
    pub toks: Seq<Tok>,
    pub metas: Seq<TokMeta>,
    pub unit: nat,
}

/// How a step ended.
pub enum Verdict {
    Matched,
    Failed,
    /// A call of a rule would have nested deeper than there was room for.
    Abandoned,
}

/// How a step ended, the position in the tokens after it, and the number of
/// moves that the interpreter makes for it.
pub struct Outcome {
    pub verdict: Verdict,
    pub pos: int,
    pub work: nat,
}

impl Outcome {
    /// A match that ends at `pos`.
    pub open spec fn matched(pos: int, work: nat) -> Outcome {
        Outcome { verdict: Verdict::Matched, pos, work }
    }

    /// A failure that leaves the position at `pos`.
    pub open spec fn failed(pos: int, work: nat) -> Outcome {
        Outcome { verdict: Verdict::Failed, pos, work }
    }

    /// A match or a failure.
    pub open spec fn decided(matched: bool, pos: int, work: nat) -> Outcome {
        if matched {
            Outcome::matched(pos, work)
        } else {
            Outcome::failed(pos, work)
        }
    }

    /// The same outcome after `n` more moves.
    pub open spec fn after(self, n: nat) -> Outcome {
        Outcome { work: self.work + n, ..self }
    }

    /// The outcome of a step that holds one step: a move to open it and,
    /// unless the parse was abandoned inside, a move to close it.
    pub open spec fn enclosed(self) -> Outcome {
        if self.verdict is Abandoned {
            self.after(1)
        } else {
            self.after(2)
        }
    }

    /// The same outcome, apart from the moves.
    pub open spec fn same(self, other: Outcome) -> bool {
        self.verdict == other.verdict && self.pos == other.pos
    }

    /// The number of tokens that a matched parse took.
    pub open spec fn taken(self) -> Option<usize> {
        if self.verdict is Matched {
            Some(self.pos as usize)
        } else {
            None
        }
    }
}

/// The greatest span of a token; 0 where there is no token.
pub open spec fn max_span(metas: Seq<TokMeta>) -> nat
    decreases metas.len(),
{
    if metas.len() == 0 {
        0
    } else if metas.last().span > max_span(metas.drop_last()) {
        metas.last().span as nat
    } else {
        max_span(metas.drop_last())
    }
}

/// The number of ways in which a call of a rule can stand: one for each
/// symbol, each token at which it can begin, and each number of open
/// levels that the tokens can tell apart (no token is as wide as a level
/// above the greatest span, so these levels are told apart: none, one, and
/// so on up to the greatest span, and any more than that).
pub open spec fn nesting_limit(source: Source) -> nat {
    source.toks.len() * SYMBOLS as nat * (max_span(source.metas) + 2)
}

/// The number of spaces that a line has at `depth` open levels and `offset`
/// more, where a level is `unit` spaces wide.
pub open spec fn indent_width(depth: nat, offset: nat, unit: nat) -> nat {
    (depth + offset) * unit
}

/// A grammar applied to a source, with room for a number of nested calls of
/// rules.
pub struct Parse {
    pub grammar: Grammar,
    pub source: Source,
    pub room: nat,
}

impl Parse {
    /// The steps of the program.
    pub open spec fn steps(self) -> Seq<Step> {
        self.grammar.steps
    }

    /// The number of tokens.
    pub open spec fn len(self) -> int {
        self.source.toks.len() as int
    }

    /// The parse of a source by a grammar, with the room that every parse
    /// that ends ends within.
    pub open spec fn of(grammar: Grammar, source: Source) -> Parse {
        Parse { grammar, source, room: nesting_limit(source) }
    }

    /// How deep the calls of rules may nest in this parse.
    pub open spec fn limit(self) -> nat {
        self.room
    }

    /// The room that every parse of the source that ends ends within.
    pub open spec fn bound(self) -> nat {
        nesting_limit(self.source)
    }

    /// Is there room for every parse that ends?
    pub open spec fn roomy(self) -> bool {
        self.room >= self.bound()
    }

    /// Is the token at `pos` of kind `tok`?
    pub open spec fn token_is(self, pos: int, tok: Tok) -> bool {
        0 <= pos < self.len() && self.source.toks[pos] == tok
    }

    /// The index after the step at `at` and all that it holds.
    pub open spec fn after(self, at: int) -> int {
        self.grammar.after(at)
    }

    /// The outcome of a step that holds nothing and calls nothing.
    pub open spec fn leaf(self, step: Step, pos: int, depth: nat) -> Outcome {
        match step {
            Step::Literal(tok) => if self.token_is(pos, tok) {
                Outcome::matched(pos + 1, 1)
            } else {
                Outcome::failed(pos, 1)
            },
            Step::SkipSpace => if self.token_is(pos, Tok::Space) {
                Outcome::matched(pos + 1, 1)
            } else {
                Outcome::matched(pos, 1)
            },
            Step::Indentation(offset) => {
                let width = indent_width(depth, offset as nat, self.source.unit);
                if width == 0 {
                    Outcome::matched(pos, 1)
                } else if self.token_is(pos, Tok::Space) && 0 <= pos < self.source.metas.len()
                    && self.source.metas[pos].span == width {
                    Outcome::matched(pos + 1, 1)
                } else {
                    Outcome::failed(pos, 1)
                }
            },
            Step::EndOfInput => Outcome::decided(pos == self.len(), pos, 1),
            _ => Outcome::failed(pos, 1),
        }
    }

    /// The outcome of the step at `at`, tried at position `pos` of the
    /// tokens, inside `depth` open levels of indentation, with room for
    /// `room` nested calls of rules.
    pub open spec fn eval(self, at: int, pos: int, depth: nat, room: nat) -> Outcome
        decreases room, self.after(at) - at, self.len() - pos, 0int,
    {
        if !(0 <= at < self.steps().len()) {
            Outcome::failed(pos, 1)
        } else {
            match self.steps()[at] {
                Step::RuleStart(symbol) => {
                    if self.grammar.is_rule(at + 1) {
                        Outcome::failed(pos, 1)
                    } else {
                        let depth = if symbol.nests() {
                            depth + 1
                        } else {
                            depth
                        };
                        self.eval(at + 1, pos, depth as nat, room).enclosed()
                    }
                },
                Step::Reference(symbol) => {
                    if pos >= self.len() {
                        Outcome::failed(pos, 1)
                    } else {
                        match self.grammar.entry(symbol) {
                            None => Outcome::failed(pos, 1),
                            Some(entry) => if room == 0 {
                                Outcome { verdict: Verdict::Abandoned, pos, work: 1 }
                            } else {
                                self.eval(entry as int, pos, depth, (room - 1) as nat).enclosed()
                            },
                        }
                    }
                },
                Step::Sequence(end) => {
                    if at + 1 < end {
                        let body = self.eval_all(at + 1, end as int, pos, depth, room);
                        match body.verdict {
                            Verdict::Failed => Outcome::failed(pos, body.work + 1),
                            _ => body.after(1),
                        }
                    } else {
                        Outcome::failed(pos, 1)
                    }
                },
                Step::Choice(end) => {
                    if at + 1 < end {
                        self.eval_any(at + 1, end as int, pos, depth, room).after(1)
                    } else {
                        Outcome::failed(pos, 1)
                    }
                },
                Step::Optional(end) => {
                    if at + 1 < end {
                        let body = self.eval_all(at + 1, end as int, pos, depth, room);
                        match body.verdict {
                            Verdict::Failed => Outcome::matched(pos, body.work + 1),
                            _ => body.after(1),
                        }
                    } else {
                        Outcome::failed(pos, 1)
                    }
                },
                Step::Repeat(end) => {
                    if at + 1 < end {
                        self.eval_loop(at, end as int, pos, depth, room).after(1)
                    } else {
                        Outcome::failed(pos, 1)
                    }
                },
                step => self.leaf(step, pos, depth),
            }
        }
    }

    /// The outcome of the steps from `at` to `end`, one after the other: it
    /// fails with the first of them that fails.
    pub open spec fn eval_all(self, at: int, end: int, pos: int, depth: nat, room: nat) -> Outcome
        decreases room, end - at, self.len() - pos, 1int,
    {
        if at >= end {
            Outcome::matched(pos, 0)
        } else if self.after(at) > end {
            Outcome::failed(pos, 1)
        } else {
            let first = self.eval(at, pos, depth, room);
            match first.verdict {
                Verdict::Matched => self.eval_all(self.after(at), end, first.pos, depth, room).after(
                    first.work + 1,
                ),
                Verdict::Failed => first.after(1),
                Verdict::Abandoned => first,
            }
        }
    }

    /// The outcome of the first of the steps from `at` to `end` that
    /// matches, each tried at `pos`.
    pub open spec fn eval_any(self, at: int, end: int, pos: int, depth: nat, room: nat) -> Outcome
        decreases room, end - at, self.len() - pos, 1int,
    {
        if at >= end {
            Outcome::failed(pos, 0)
        } else if self.after(at) > end {
            Outcome::failed(pos, 1)
        } else {
            let first = self.eval(at, pos, depth, room);
            match first.verdict {
                Verdict::Matched => first.after(1),
                Verdict::Failed => self.eval_any(self.after(at), end, pos, depth, room).after(
                    first.work + 1,
                ),
                Verdict::Abandoned => first,
            }
        }
    }

    /// The outcome of the repetition at `at`, which ends at `end`, from its
    /// round that begins at `pos`.
    pub open spec fn eval_loop(self, at: int, end: int, pos: int, depth: nat, room: nat) -> Outcome
        decreases room, end - at - 1, self.len() - pos, 2int,
    {
        if at + 1 < end {
            let round = self.eval_all(at + 1, end, pos, depth, room);
            match round.verdict {
                Verdict::Matched => if pos < round.pos <= self.len() {
                    self.eval_loop(at, end, round.pos, depth, room).after(round.work)
                } else {
                    round
                },
                Verdict::Failed => Outcome::matched(pos, round.work),
                Verdict::Abandoned => round,
            }
        } else {
            Outcome::failed(pos, 0)
        }
    }

    /// The outcome of the rule named `entry` at the beginning of the tokens.
    pub open spec fn outcome(self, entry: Symbol) -> Outcome {
        match self.grammar.entry(entry) {
            Some(at) => self.eval(at as int, 0, 0, self.limit()),
            None => Outcome::failed(0, 0),
        }
    }
}

} // verus!
