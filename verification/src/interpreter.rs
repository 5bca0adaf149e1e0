//! The stack machine that runs a program over tokens.
//!
//! The machine keeps the index of the step that it looks at, a position in
//! the tokens, and two stacks: the control stack holds the index of every
//! rule's entry, reference and block that is open, the mark stack the
//! position at which each of them was opened (a reference has no mark). It
//! moves in two ways. Going down, it opens what it finds until it comes to a
//! leaf, which matches or fails. Going up, it looks at the innermost open
//! step and decides from the result so far whether that step is done, goes
//! on with its next child, or begins again.
//!
//! [`Parse::next`] says which state follows a state. [`Parse::unwind`] and
//! [`Parse::descend`] say, for a state of the machine going up or down, how
//! the parse will end. No move changes that ([`Parse::law_move`]), and
//! before the first move it is the outcome that [`Parse::outcome`] gives.
use crate::grammar::{Program, Step, Symbol, SYMBOLS};
use crate::semantics::{max_span, Outcome, Parse, Source, Verdict};
use crate::tokenize::{Tok, TokMeta};
use vstd::prelude::*;

verus! {

impl Parse {
    /// Is `i` the index of a reference?
    pub open spec fn is_call(self, i: int) -> bool {
        0 <= i < self.steps().len() && self.steps()[i] is Reference
    }

    /// Is `i` the index of the entry of a rule that opens a level of
    /// indentation?
    pub open spec fn is_level(self, i: int) -> bool {
        0 <= i < self.steps().len() && match self.steps()[i] {
            Step::RuleStart(symbol) => symbol.nests(),
            _ => false,
        }
    }

    /// The number of references on a control stack.
    pub open spec fn open_calls(self, control: Seq<int>) -> nat
        decreases control.len(),
    {
        if control.len() == 0 {
            0
        } else if self.is_call(control.last()) {
            self.open_calls(control.drop_last()) + 1
        } else {
            self.open_calls(control.drop_last())
        }
    }

    /// The number of calls of rules that may still nest inside those on a
    /// control stack.
    pub open spec fn spare(self, control: Seq<int>) -> nat {
        if self.open_calls(control) >= self.limit() {
            0
        } else {
            (self.limit() - self.open_calls(control)) as nat
        }
    }

    /// The number of open levels of indentation on a control stack.
    pub open spec fn open_levels(self, control: Seq<int>) -> nat
        decreases control.len(),
    {
        if control.len() == 0 {
            0
        } else if self.is_level(control.last()) {
            self.open_levels(control.drop_last()) + 1
        } else {
            self.open_levels(control.drop_last())
        }
    }

    /// The number of marks that belong to a control stack: one for each
    /// step on it that is no reference.
    pub open spec fn open_marks(self, control: Seq<int>) -> nat
        decreases control.len(),
    {
        if control.len() == 0 {
            0
        } else if self.is_call(control.last()) {
            self.open_marks(control.drop_last())
        } else {
            self.open_marks(control.drop_last()) + 1
        }
    }

    /// Is the innermost open step a block?
    pub open spec fn on_block(self, control: Seq<int>) -> bool {
        control.len() > 0 && self.grammar.is_block(control.last())
    }

    /// The number of steps between `at` and the end of the innermost open
    /// block.
    pub open spec fn slack(self, control: Seq<int>, at: int) -> int {
        if self.on_block(control) && at < self.steps()[control.last()].end() {
            self.steps()[control.last()].end() - at
        } else {
            0
        }
    }

    /// The number of tokens after the innermost mark.
    pub open spec fn room(self, marks: Seq<int>) -> int {
        if marks.len() > 0 && 0 <= marks.last() <= self.len() {
            self.len() - marks.last()
        } else {
            0
        }
    }

    /// How the parse ends when the machine is about to try the step at `at`
    /// at position `pos`, with these stacks.
    pub open spec fn descend(self, control: Seq<int>, marks: Seq<int>, at: int, pos: int) -> Outcome
        decreases
            control.len(),
            self.room(marks),
            if self.on_block(control) {
                2 * self.slack(control, at)
            } else {
                2
            },
    {
        if self.on_block(control) && self.slack(control, at) == 0 {
            Outcome::failed(pos, 0)
        } else {
            let tried = self.eval(at, pos, self.open_levels(control), self.spare(control));
            match tried.verdict {
                Verdict::Abandoned => tried,
                _ => self.unwind(
                    control,
                    marks,
                    self.after(at),
                    tried.pos,
                    tried.verdict is Matched,
                ).after(tried.work),
            }
        }
    }

    /// How the parse ends when a step has just ended, matched or not, with
    /// the machine at step `at` and position `pos`, and these stacks.
    pub open spec fn unwind(
        self,
        control: Seq<int>,
        marks: Seq<int>,
        at: int,
        pos: int,
        matched: bool,
    ) -> Outcome
        decreases
            control.len(),
            self.room(marks),
            if self.on_block(control) {
                2 * self.slack(control, at) + 1
            } else {
                1
            },
    {
        if control.len() == 0 {
            Outcome::decided(matched, pos, 0)
        } else {
            let top = control.last();
            let below = control.drop_last();
            if self.is_call(top) {
                self.unwind(below, marks, top + 1, pos, matched).after(1)
            } else if marks.len() == 0 {
                Outcome::failed(pos, 0)
            } else {
                let mark = marks.last();
                let rest = marks.drop_last();
                if !self.grammar.is_block(top) {
                    self.unwind(below, rest, at, pos, matched).after(1)
                } else {
                    let end = self.steps()[top].end();
                    match self.steps()[top] {
                        Step::Sequence(_) => if !matched {
                            self.unwind(below, rest, end, mark, false).after(1)
                        } else if at >= end {
                            self.unwind(below, rest, at, pos, true).after(1)
                        } else {
                            self.descend(control, marks, at, pos).after(1)
                        },
                        Step::Choice(_) => if matched {
                            self.unwind(below, rest, end, pos, true).after(1)
                        } else if at >= end {
                            self.unwind(below, rest, at, mark, false).after(1)
                        } else {
                            self.descend(control, marks, at, mark).after(1)
                        },
                        Step::Optional(_) => if !matched {
                            self.unwind(below, rest, end, mark, true).after(1)
                        } else if at >= end {
                            self.unwind(below, rest, at, pos, true).after(1)
                        } else {
                            self.descend(control, marks, at, pos).after(1)
                        },
                        _ => if !matched {
                            self.unwind(below, rest, end, mark, true).after(1)
                        } else if at >= end {
                            if 0 <= mark < pos <= self.len() && top + 1 < end {
                                self.descend(control, rest.push(pos), top + 1, pos).after(1)
                            } else {
                                self.unwind(below, rest, at, pos, true).after(1)
                            }
                        } else {
                            self.descend(control, marks, at, pos).after(1)
                        },
                    }
                }
            }
        }
    }
}


/// What the machine holds between two moves: the index of the step at hand,
/// the position in the tokens, the two stacks, innermost last, and whether
/// it is going up with a result, matched or not.
pub struct State {
    pub at: int,
    pub pos: int,
    pub control: Seq<int>,
    pub marks: Seq<int>,
    pub matched: bool,
    pub unwinding: bool,
}

impl State {
    /// The state before the first move: about to enter the rule at `at`, at
    /// the first token, with nothing open.
    pub open spec fn start(at: int) -> State {
        State {
            at,
            pos: 0,
            control: Seq::empty(),
            marks: Seq::empty(),
            matched: false,
            unwinding: false,
        }
    }

    /// Is `pos` a position that one move from this state may come to? A
    /// move leaves the position, takes one token, or goes back to the
    /// innermost mark.
    pub open spec fn reaches(self, pos: int) -> bool {
        pos == self.pos || pos == self.pos + 1 || (self.marks.len() > 0 && pos
            == self.marks.last())
    }

    /// Has the parse ended? It has when a result has come up and nothing is
    /// open.
    pub open spec fn finished(self) -> bool {
        self.unwinding && self.control.len() == 0
    }
}

impl Parse {
    /// How the parse ends from a state of the machine.
    pub open spec fn finish(self, state: State) -> Outcome {
        if state.unwinding {
            self.unwind(state.control, state.marks, state.at, state.pos, state.matched)
        } else {
            self.descend(state.control, state.marks, state.at, state.pos)
        }
    }

    /// Is the machine about to follow a reference that would nest the calls
    /// of rules deeper than the limit? From such a state it makes no move:
    /// the parse is abandoned.
    pub open spec fn stuck(self, state: State) -> bool {
        &&& !state.unwinding
        &&& self.is_call(state.at)
        &&& state.pos < self.len()
        &&& self.open_calls(state.control) >= self.limit()
        &&& self.steps()[state.at] matches Step::Reference(symbol) && self.grammar.entry(symbol) is Some
    }

    /// The state after one move.
    pub open spec fn next(self, state: State) -> State {
        if state.unwinding {
            self.next_up(state)
        } else {
            self.next_down(state)
        }
    }

    /// The state after a move down. A rule's entry or a block is opened: its
    /// index goes on the control stack, the position on the mark stack, and
    /// the step after it is at hand. A reference is followed to the entry of
    /// its rule, and goes on the control stack; where the tokens have ended,
    /// it fails instead. A leaf is tried. What fails or is tried leaves the
    /// machine going up, with the step after it at hand.
    pub open spec fn next_down(self, state: State) -> State {
        let at = state.at;
        match self.steps()[at] {
            Step::Reference(symbol) => {
                if state.pos >= self.len() || self.grammar.entry(symbol) is None {
                    State { at: at + 1, matched: false, unwinding: true, ..state }
                } else if self.open_calls(state.control) >= self.limit() {
                    state
                } else {
                    State {
                        at: self.grammar.entry(symbol).unwrap() as int,
                        control: state.control.push(at),
                        ..state
                    }
                }
            },
            step => if step.is_plain() {
                let tried = self.leaf(step, state.pos, self.open_levels(state.control));
                State {
                    at: at + 1,
                    pos: tried.pos,
                    matched: tried.verdict is Matched,
                    unwinding: true,
                    ..state
                }
            } else {
                State {
                    at: at + 1,
                    control: state.control.push(at),
                    marks: state.marks.push(state.pos),
                    ..state
                }
            },
        }
    }

    /// The state after a move up, which the innermost open step decides.
    ///
    /// * A reference is closed, and the step after it is at hand.
    /// * A rule's entry is closed.
    /// * A sequence whose child failed is closed, failed, at its mark. One
    ///   whose last child matched is closed. Else its next child is tried.
    /// * A choice whose child matched is closed. One whose last child failed
    ///   is closed, failed, at its mark. Else its next child is tried at
    ///   its mark.
    /// * An optional part whose child failed is closed, matched, at its
    ///   mark. One whose last child matched is closed. Else its next child
    ///   is tried.
    /// * A repetition whose child failed is closed, matched, at its mark.
    ///   One whose last child matched begins again with its mark at the
    ///   position, if the round took a token, and is closed if not. Else its
    ///   next child is tried.
    ///
    /// What is closed leaves the stacks, and the machine goes on up. A
    /// block that fails or that ends early has the step after it at hand.
    pub open spec fn next_up(self, state: State) -> State {
        let top = state.control.last();
        let below = state.control.drop_last();
        if self.is_call(top) {
            State { at: top + 1, control: below, ..state }
        } else {
            let mark = state.marks.last();
            let closed = State { control: below, marks: state.marks.drop_last(), ..state };
            let end = self.steps()[top].end();
            let last = state.at >= end;
            match self.steps()[top] {
                Step::Sequence(_) => if !state.matched {
                    State { at: end, pos: mark, ..closed }
                } else if last {
                    closed
                } else {
                    State { unwinding: false, ..state }
                },
                Step::Choice(_) => if state.matched {
                    State { at: end, ..closed }
                } else if last {
                    State { pos: mark, ..closed }
                } else {
                    State { pos: mark, unwinding: false, ..state }
                },
                Step::Optional(_) => if !state.matched {
                    State { at: end, pos: mark, matched: true, ..closed }
                } else if last {
                    closed
                } else {
                    State { unwinding: false, ..state }
                },
                Step::Repeat(_) => if !state.matched {
                    State { at: end, pos: mark, matched: true, ..closed }
                } else if last {
                    if state.pos > mark {
                        State {
                            at: top + 1,
                            marks: state.marks.drop_last().push(state.pos),
                            unwinding: false,
                            ..state
                        }
                    } else {
                        closed
                    }
                } else {
                    State { unwinding: false, ..state }
                },
                _ => closed,
            }
        }
    }

    /// Can a rule's entry, a block or a reference stand at `i`? These are
    /// the steps that the control stack holds.
    pub open spec fn opens(self, i: int) -> bool {
        self.grammar.is_rule(i) || self.grammar.is_block(i) || self.is_call(i)
    }

    /// What holds of every state of the machine: the position lies within
    /// the tokens, and so does every mark; the control stack holds steps
    /// that open something; there is one mark for each of them that is no
    /// reference; and going down, the step at hand lies within the program,
    /// and before the end of the innermost open block.
    pub open spec fn admits(self, state: State) -> bool {
        &&& 0 <= state.at
        &&& 0 <= state.pos <= self.len()
        &&& forall|i: int| 0 <= i < state.control.len() ==> self.opens(#[trigger] state.control[i])
        &&& state.marks.len() == self.open_marks(state.control)
        &&& forall|i: int| 0 <= i < state.marks.len() ==> 0 <= #[trigger] state.marks[i] <= self.len()
        &&& !state.unwinding ==> {
            &&& 0 <= state.at < self.steps().len()
            &&& !(self.on_block(state.control) && self.slack(state.control, state.at) == 0)
        }
    }
}

/// A stack of indices as a sequence of integers.
pub open spec fn ints(stack: Seq<usize>) -> Seq<int> {
    Seq::new(stack.len(), |i: int| stack[i] as int)
}

proof fn lemma_ints_push(stack: Seq<usize>, value: usize)
    ensures
        ints(stack.push(value)) == ints(stack).push(value as int),
{
    assert(ints(stack.push(value)) =~= ints(stack).push(value as int));
}

proof fn lemma_ints_drop_last(stack: Seq<usize>)
    requires
        stack.len() > 0,
    ensures
        ints(stack.drop_last()) == ints(stack).drop_last(),
        ints(stack).last() == stack.last(),
{
    assert(ints(stack.drop_last()) =~= ints(stack).drop_last());
}

proof fn lemma_ints_update_last(stack: Seq<usize>, value: usize)
    requires
        stack.len() > 0,
    ensures
        ints(stack.update(stack.len() - 1, value)) == ints(stack).drop_last().push(value as int),
{
    assert(ints(stack.update(stack.len() - 1, value)) =~= ints(stack).drop_last().push(
        value as int,
    ));
}

impl Parse {
    /// What one more open step adds to the counts.
    proof fn lemma_push(self, control: Seq<int>, top: int)
        ensures
            control.push(top).last() == top,
            control.push(top).drop_last() == control,
            !self.is_call(top) ==> self.spare(control.push(top)) == self.spare(control),
            self.is_call(top) && self.open_calls(control) < self.limit() ==> self.spare(
                control.push(top),
            ) == self.spare(control) - 1,
            self.open_calls(control.push(top)) == self.open_calls(control) + if self.is_call(top) {
                1nat
            } else {
                0nat
            },
            self.open_levels(control.push(top)) == self.open_levels(control) + if self.is_level(
                top,
            ) {
                1nat
            } else {
                0nat
            },
            self.open_marks(control.push(top)) == self.open_marks(control) + if self.is_call(top) {
                0nat
            } else {
                1nat
            },
    {
        assert(control.push(top).drop_last() =~= control);
    }

    proof fn lemma_counts_bounded(self, control: Seq<int>)
        ensures
            self.open_calls(control) <= control.len(),
            self.open_levels(control) <= control.len(),
            self.open_marks(control) <= control.len(),
        decreases control.len(),
    {
        if control.len() > 0 {
            self.lemma_counts_bounded(control.drop_last());
        }
    }

    /// A step inside a block ends inside it.
    proof fn lemma_child(self, top: int, at: int)
        requires
            self.grammar.well_formed(),
            self.grammar.is_block(top),
            top < at < self.steps()[top].end(),
        ensures
            at < self.after(at) <= self.steps()[top].end(),
            0 <= at < self.steps().len(),
            !self.grammar.is_rule(at),
    {
        assert(self.grammar.is_block(top) && self.steps()[at] == self.steps()[at]);
    }

    /// The steps of a sequence or of an optional part, from one of them on:
    /// the machine comes to what `eval_all` says.
    proof fn lemma_all(
        self,
        control: Seq<int>,
        marks: Seq<int>,
        top: int,
        mark: int,
        at: int,
        pos: int,
    )
        requires
            self.grammar.well_formed(),
            self.grammar.is_block(top),
            self.steps()[top] is Sequence || self.steps()[top] is Optional,
            top < at < self.steps()[top].end(),
        ensures
            ({
                let end = self.steps()[top].end();
                let body = self.eval_all(
                    at,
                    end,
                    pos,
                    self.open_levels(control),
                    self.spare(control),
                );
                let inner = self.descend(control.push(top), marks.push(mark), at, pos);
                match body.verdict {
                    Verdict::Abandoned => inner == body,
                    Verdict::Matched => inner == self.unwind(
                        control,
                        marks,
                        end,
                        body.pos,
                        true,
                    ).after(body.work),
                    Verdict::Failed => inner == self.unwind(
                        control,
                        marks,
                        end,
                        mark,
                        self.steps()[top] is Optional,
                    ).after(body.work),
                }
            }),
        decreases self.steps()[top].end() - at,
    {
        let end = self.steps()[top].end();
        let inside = control.push(top);
        let inside_marks = marks.push(mark);
        self.lemma_push(control, top);
        self.lemma_child(top, at);
        assert(inside_marks.drop_last() =~= marks);
        let levels = self.open_levels(control);
        let calls = self.spare(control);
        let tried = self.eval(at, pos, levels, calls);
        let next = self.after(at);
        if tried.verdict is Matched && next < end {
            self.lemma_all(control, marks, top, mark, next, tried.pos);
        }
    }

    /// The steps of a choice, from one of them on: the machine comes to what
    /// `eval_any` says.
    proof fn lemma_any(self, control: Seq<int>, marks: Seq<int>, top: int, mark: int, at: int)
        requires
            self.grammar.well_formed(),
            self.grammar.is_block(top),
            self.steps()[top] is Choice,
            top < at < self.steps()[top].end(),
        ensures
            ({
                let end = self.steps()[top].end();
                let body = self.eval_any(
                    at,
                    end,
                    mark,
                    self.open_levels(control),
                    self.spare(control),
                );
                let inner = self.descend(control.push(top), marks.push(mark), at, mark);
                match body.verdict {
                    Verdict::Abandoned => inner == body,
                    Verdict::Matched => inner == self.unwind(
                        control,
                        marks,
                        end,
                        body.pos,
                        true,
                    ).after(body.work),
                    Verdict::Failed => body.pos == mark && inner == self.unwind(
                        control,
                        marks,
                        end,
                        mark,
                        false,
                    ).after(body.work),
                }
            }),
        decreases self.steps()[top].end() - at,
    {
        let end = self.steps()[top].end();
        self.lemma_push(control, top);
        self.lemma_child(top, at);
        assert(marks.push(mark).drop_last() =~= marks);
        let tried = self.eval(at, mark, self.open_levels(control), self.spare(control));
        let next = self.after(at);
        if tried.verdict is Failed && next < end {
            self.lemma_any(control, marks, top, mark, next);
        }
    }

    /// The steps of one round of a repetition, from one of them on.
    proof fn lemma_round(
        self,
        control: Seq<int>,
        marks: Seq<int>,
        top: int,
        mark: int,
        at: int,
        pos: int,
    )
        requires
            self.grammar.well_formed(),
            self.grammar.is_block(top),
            self.steps()[top] is Repeat,
            top < at < self.steps()[top].end(),
        ensures
            ({
                let end = self.steps()[top].end();
                let body = self.eval_all(
                    at,
                    end,
                    pos,
                    self.open_levels(control),
                    self.spare(control),
                );
                let inner = self.descend(control.push(top), marks.push(mark), at, pos);
                match body.verdict {
                    Verdict::Abandoned => inner == body,
                    Verdict::Matched => inner == if 0 <= mark < body.pos <= self.len() {
                        self.descend(
                            control.push(top),
                            marks.push(body.pos),
                            top + 1,
                            body.pos,
                        ).after(body.work)
                    } else {
                        self.unwind(control, marks, end, body.pos, true).after(body.work)
                    },
                    Verdict::Failed => inner == self.unwind(control, marks, end, mark, true).after(
                        body.work,
                    ),
                }
            }),
        decreases self.steps()[top].end() - at,
    {
        let end = self.steps()[top].end();
        self.lemma_push(control, top);
        self.lemma_child(top, at);
        assert(marks.push(mark).drop_last() =~= marks);
        assert(self.grammar.is_block(top));
        let tried = self.eval(at, pos, self.open_levels(control), self.spare(control));
        let next = self.after(at);
        if tried.verdict is Matched && next < end {
            self.lemma_round(control, marks, top, mark, next, tried.pos);
        }
    }

    /// A repetition, from the beginning of one of its rounds: the machine
    /// comes to what `eval_loop` says.
    proof fn lemma_loop(self, control: Seq<int>, marks: Seq<int>, top: int, mark: int)
        requires
            self.grammar.well_formed(),
            self.grammar.is_block(top),
            self.steps()[top] is Repeat,
            0 <= mark,
        ensures
            ({
                let end = self.steps()[top].end();
                let body = self.eval_loop(
                    top,
                    end,
                    mark,
                    self.open_levels(control),
                    self.spare(control),
                );
                let inner = self.descend(control.push(top), marks.push(mark), top + 1, mark);
                match body.verdict {
                    Verdict::Abandoned => inner == body,
                    Verdict::Matched => inner == self.unwind(
                        control,
                        marks,
                        end,
                        body.pos,
                        true,
                    ).after(body.work),
                    Verdict::Failed => false,
                }
            }),
        decreases self.len() - mark,
    {
        let end = self.steps()[top].end();
        assert(self.grammar.is_block(top));
        self.lemma_round(control, marks, top, mark, top + 1, mark);
        let round = self.eval_all(
            top + 1,
            end,
            mark,
            self.open_levels(control),
            self.spare(control),
        );
        if round.verdict is Matched && mark < round.pos <= self.len() {
            self.lemma_loop(control, marks, top, round.pos);
        }
    }

    /// Opening a block does not change how the parse ends.
    proof fn lemma_enter_block(self, control: Seq<int>, marks: Seq<int>, at: int, pos: int)
        requires
            self.grammar.well_formed(),
            self.grammar.is_block(at),
            0 <= pos,
            !(self.on_block(control) && self.slack(control, at) == 0),
        ensures
            self.descend(control, marks, at, pos) == self.descend(
                control.push(at),
                marks.push(pos),
                at + 1,
                pos,
            ).after(1),
    {
        assert(self.grammar.is_block(at));
        match self.steps()[at] {
            Step::Sequence(_) => self.lemma_all(control, marks, at, pos, at + 1, pos),
            Step::Optional(_) => self.lemma_all(control, marks, at, pos, at + 1, pos),
            Step::Choice(_) => self.lemma_any(control, marks, at, pos, at + 1),
            _ => self.lemma_loop(control, marks, at, pos),
        }
    }

    /// Opening a rule does not change how the parse ends.
    proof fn lemma_enter_rule(self, control: Seq<int>, marks: Seq<int>, at: int, pos: int)
        requires
            self.grammar.well_formed(),
            self.grammar.is_rule(at),
            !(self.on_block(control) && self.slack(control, at) == 0),
        ensures
            self.descend(control, marks, at, pos) == self.descend(
                control.push(at),
                marks.push(pos),
                at + 1,
                pos,
            ).after(1),
    {
        self.lemma_push(control, at);
        assert(self.grammar.is_rule(at));
        assert(marks.push(pos).drop_last() =~= marks);
        assert(!self.grammar.is_rule(at + 1));
    }

    /// Following a reference does not change how the parse ends.
    proof fn lemma_enter_call(
        self,
        control: Seq<int>,
        marks: Seq<int>,
        at: int,
        pos: int,
        symbol: Symbol,
    )
        requires
            self.grammar.well_formed(),
            0 <= at < self.steps().len(),
            self.steps()[at] == Step::Reference(symbol),
            pos < self.len(),
            self.open_calls(control) < self.limit(),
            !(self.on_block(control) && self.slack(control, at) == 0),
        ensures
            self.grammar.entry(symbol) is Some,
            self.descend(control, marks, at, pos) == self.descend(
                control.push(at),
                marks,
                self.grammar.entry(symbol).unwrap() as int,
                pos,
            ).after(1),
    {
        self.lemma_push(control, at);
        assert(self.grammar.entry(symbol) is Some);
    }
}


impl Parse {
    /// Before the first move, the parse ends as the rule does that is about
    /// to be entered.
    pub proof fn law_start(self, entry: Symbol)
        requires
            self.grammar.entry(entry) is Some,
        ensures
            self.finish(State::start(self.grammar.entry(entry).unwrap() as int)).same(
                self.outcome(entry),
            ),
    {
    }

    /// Where the parse has ended, it has ended as the machine says: matched
    /// or not, at the machine's position.
    pub proof fn law_end(self, state: State)
        requires
            state.finished(),
        ensures
            self.finish(state) == Outcome::decided(state.matched, state.pos, 0),
    {
    }

    /// A move does not change how the parse ends, and takes one of the
    /// moves that are left; the state after it is one that the parse admits.
    /// From a state that makes no move, the parse is abandoned.
    pub proof fn law_move(self, state: State)
        requires
            self.grammar.well_formed(),
            self.admits(state),
            !state.finished(),
        ensures
            self.stuck(state) ==> self.finish(state).verdict is Abandoned && self.next(state)
                == state,
            !self.stuck(state) ==> self.finish(state) == self.finish(self.next(state)).after(1)
                && self.admits(self.next(state)),
            state.reaches(self.next(state).pos),
    {
        let control = state.control;
        let marks = state.marks;
        let at = state.at;
        let after = self.next(state);
        if state.unwinding {
            let top = control.last();
            let below = control.drop_last();
            assert(self.opens(control[control.len() - 1]));
            assert(self.grammar.is_block(top) || !self.grammar.is_block(top));
            self.lemma_counts_bounded(below);
            if !self.is_call(top) {
                assert(marks.len() > 0);
                assert(0 <= marks[marks.len() - 1] <= self.len());
                let rest = marks.drop_last();
                assert forall|i: int| 0 <= i < rest.len() implies 0 <= #[trigger] rest[i]
                    <= self.len() by {
                    assert(rest[i] == marks[i]);
                }
                assert forall|i: int| 0 <= i < rest.push(state.pos).len() implies 0
                    <= #[trigger] rest.push(state.pos)[i] <= self.len() by {
                    if i < rest.len() {
                        assert(rest.push(state.pos)[i] == marks[i]);
                    }
                }
                assert(rest.push(state.pos).len() == marks.len());
            }
            assert forall|i: int| 0 <= i < below.len() implies self.opens(#[trigger] below[i]) by {
                assert(below[i] == control[i]);
            }
        } else {
            assert(self.grammar.is_rule(at) || !self.grammar.is_rule(at));
            assert(self.grammar.is_block(at) || !self.grammar.is_block(at));
            self.lemma_push(control, at);
            let inside = control.push(at);
            assert forall|i: int| 0 <= i < inside.len() && self.opens(at) implies self.opens(
                #[trigger] inside[i],
            ) by {
                if i < control.len() {
                    assert(inside[i] == control[i]);
                }
            }
            assert forall|i: int| 0 <= i < marks.push(state.pos).len() implies 0
                <= #[trigger] marks.push(state.pos)[i] <= self.len() by {
                if i < marks.len() {
                    assert(marks.push(state.pos)[i] == marks[i]);
                }
            }
            match self.steps()[at] {
                Step::RuleStart(_) => {
                    self.lemma_enter_rule(control, marks, at, state.pos);
                },
                Step::Reference(symbol) => {
                    if state.pos < self.len() && self.open_calls(control) < self.limit() {
                        self.lemma_enter_call(control, marks, at, state.pos, symbol);
                    }
                },
                Step::Sequence(_) | Step::Choice(_) | Step::Optional(_) | Step::Repeat(_) => {
                    self.lemma_enter_block(control, marks, at, state.pos);
                },
                _ => {},
            }
        }
    }
}

/// The greatest span of a token.
fn greatest_span(metas: &[TokMeta]) -> (r: usize)
    ensures
        r == max_span(metas@),
{
    let mut greatest: usize = 0;
    let mut i: usize = 0;
    while i < metas.len()
        invariant
            i <= metas@.len(),
            greatest == max_span(metas@.take(i as int)),
        decreases metas@.len() - i,
    {
        proof {
            assert(metas@.take(i + 1).drop_last() =~= metas@.take(i as int));
        }
        if metas[i].span > greatest {
            greatest = metas[i].span;
        }
        i += 1;
    }
    proof {
        assert(metas@.take(i as int) =~= metas@);
    }
    greatest
}

/// The number of nested calls of rules that a parse may hold, or nothing
/// where it is more than a `usize` counts.
fn limit_for(toks: &[Tok], metas: &[TokMeta]) -> (r: Option<usize>)
    ensures
        match r {
            Some(limit) => limit == toks@.len() * SYMBOLS as nat * (max_span(metas@) + 2),
            None => toks@.len() * SYMBOLS as nat * (max_span(metas@) + 2) > usize::MAX,
        },
{
    let calls: u128 = toks.len() as u128 * SYMBOLS as u128;
    let levels: u128 = greatest_span(metas) as u128 + 2;
    let most: u128 = usize::MAX as u128;
    if calls == 0 {
        proof {
            assert(0 * levels == 0) by (nonlinear_arith);
        }
        Some(0)
    } else if levels <= most / calls {
        proof {
            assert(calls * levels <= most) by (nonlinear_arith)
                requires
                    calls > 0,
                    levels <= most / calls,
            ;
        }
        Some((calls * levels) as usize)
    } else {
        proof {
            assert(calls * levels > most) by (nonlinear_arith)
                requires
                    calls > 0,
                    levels > most / calls,
            ;
        }
        None
    }
}

/// The machine: a program, the tokens that it runs over, and its state.
pub struct Interpreter<'a> {
    program: &'a Program,
    toks: &'a [Tok],
    metas: &'a [TokMeta],
    unit: usize,
    limit: Option<usize>,
    at: usize,
    pos: usize,
    control: Vec<usize>,
    marks: Vec<usize>,
    matched: bool,
    unwinding: bool,
    depth: usize,
    calls: usize,
}

impl<'a> View for Interpreter<'a> {
    type V = State;

    closed spec fn view(&self) -> State {
        State {
            at: self.at as int,
            pos: self.pos as int,
            control: ints(self.control@),
            marks: ints(self.marks@),
            matched: self.matched,
            unwinding: self.unwinding,
        }
    }
}

impl<'a> Interpreter<'a> {
    /// What the machine runs: its program over its tokens.
    pub closed spec fn job(&self) -> Parse {
        Parse::of(
            self.program@,
            Source { toks: self.toks@, metas: self.metas@, unit: self.unit as nat },
        )
    }

    /// How the parse ends from here.
    spec fn finish(&self) -> Outcome {
        if self.unwinding {
            self.job().unwind(
                ints(self.control@),
                ints(self.marks@),
                self.at as int,
                self.pos as int,
                self.matched,
            )
        } else {
            self.job().descend(ints(self.control@), ints(self.marks@), self.at as int, self.pos as int)
        }
    }

    /// The machine is in order: its state is one that its parse admits,
    /// and what it counts is what its stacks hold.
    pub closed spec fn wf(&self) -> bool {
        self.inv()
    }

    spec fn inv(&self) -> bool {
        let job = self.job();
        let control = ints(self.control@);
        &&& job.grammar.well_formed()
        &&& self.toks@.len() == self.metas@.len()
        &&& match self.limit {
            Some(limit) => limit == job.limit(),
            None => job.limit() > usize::MAX,
        }
        &&& self.pos <= self.toks@.len()
        &&& forall|i: int|
            0 <= i < self.control@.len() ==> {
                let at = #[trigger] self.control@[i] as int;
                job.grammar.is_rule(at) || job.grammar.is_block(at) || job.is_call(at)
            }
        &&& self.marks@.len() == job.open_marks(control)
        &&& forall|i: int| 0 <= i < self.marks@.len() ==> #[trigger] self.marks@[i] <= self.toks@.len()
        &&& self.depth == job.open_levels(control)
        &&& self.calls == job.open_calls(control)
        &&& !self.unwinding ==> {
            &&& self.at < job.steps().len()
            &&& !(job.on_block(control) && job.slack(control, self.at as int) == 0)
        }
    }

    /// One move made: the rest of the parse ends as the whole did.
    spec fn moved(&self, before: &Self) -> bool {
        &&& self.inv()
        &&& self.job() == before.job()
        &&& before.finish() == self.finish().after(1)
        &&& before@.reaches(self@.pos)
        &&& !before.job().stuck(before@)
        &&& self@ == before.job().next(before@)
    }

    /// A state of the machine is one that its parse admits.
    pub proof fn lemma_admitted(&self)
        requires
            self.wf(),
        ensures
            self.job().grammar.well_formed(),
            self.job().admits(self@),
    {
        let job = self.job();
        let state = self@;
        assert forall|i: int| 0 <= i < state.control.len() implies job.opens(
            #[trigger] state.control[i],
        ) by {
            assert(state.control[i] == self.control@[i]);
        }
        assert forall|i: int| 0 <= i < state.marks.len() implies 0 <= #[trigger] state.marks[i]
            <= job.len() by {
            assert(state.marks[i] == self.marks@[i]);
        }
    }

    /// A machine about to enter the rule named `entry` at the first token,
    /// or nothing where the program has no such rule.
    pub fn new(
        program: &'a Program,
        toks: &'a [Tok],
        toks_meta: &'a [TokMeta],
        indent_unit: usize,
        entry: Symbol,
    ) -> (r: Option<Self>)
        requires
            toks@.len() == toks_meta@.len(),
        ensures
            match r {
                Some(machine) => {
                    &&& machine.wf()
                    &&& machine.job() == Parse::of(
                        program@,
                        Source { toks: toks@, metas: toks_meta@, unit: indent_unit as nat },
                    )
                    &&& program@.entry(entry) matches Some(at) && machine@ == State::start(
                        at as int,
                    )
                    &&& machine.job().finish(machine@).same(machine.job().outcome(entry))
                },
                None => program@.entry(entry) is None,
            },
    {
        let start = match program.entry(entry) {
            Some(start) => start,
            None => {
                return None;
            },
        };
        let machine = Interpreter {
            program,
            toks,
            metas: toks_meta,
            unit: indent_unit,
            limit: limit_for(toks, toks_meta),
            at: start,
            pos: 0,
            control: Vec::new(),
            marks: Vec::new(),
            matched: false,
            unwinding: false,
            depth: 0,
            calls: 0,
        };
        proof {
            assert(ints(machine.control@) =~= Seq::<int>::empty());
            assert(ints(machine.marks@) =~= Seq::<int>::empty());
        }
        Some(machine)
    }

    /// The index of the step at hand.
    pub fn pc(&self) -> (r: usize)
        ensures
            r == self@.at,
    {
        self.at
    }

    /// The position in the tokens.
    pub fn token_pos(&self) -> (r: usize)
        ensures
            r == self@.pos,
    {
        self.pos
    }

    /// Did the step that ended last match? This is read going up.
    pub fn matched(&self) -> (r: bool)
        ensures
            r == self@.matched,
    {
        self.matched
    }

    /// Has the parse ended?
    pub fn finished(&self) -> (r: bool)
        ensures
            r == self@.finished(),
    {
        self.unwinding && self.control.len() == 0
    }

    /// The number of tokens that the parse took, if it has ended and
    /// matched.
    pub fn result(&self) -> (r: Option<usize>)
        ensures
            r == if self@.finished() && self@.matched {
                Some(self@.pos as usize)
            } else {
                None
            },
    {
        if self.finished() && self.matched {
            Some(self.pos)
        } else {
            None
        }
    }

    /// Makes one move. Returns `false` where the parse is abandoned, which
    /// leaves the machine as it was.
    pub fn step(&mut self) -> (going: bool)
        requires
            old(self).wf(),
            !old(self)@.finished(),
        ensures
            final(self).wf(),
            final(self).job() == old(self).job(),
            going == !old(self).job().stuck(old(self)@),
            final(self)@ == old(self).job().next(old(self)@),
            going ==> old(self).job().finish(old(self)@) == old(self).job().finish(
                final(self)@,
            ).after(1),
            !going ==> old(self).job().finish(old(self)@).verdict is Abandoned,
            old(self)@.reaches(final(self)@.pos),
    {
        if self.unwinding {
            self.unwind();
            true
        } else {
            self.descend()
        }
    }

    /// Is there no room for one more call?
    fn at_limit(&self) -> (r: bool)
        requires
            self.inv(),
        ensures
            r == (self.job().open_calls(ints(self.control@)) >= self.job().limit()),
    {
        proof {
            self.job().lemma_counts_bounded(ints(self.control@));
        }
        let _ = self.control.len();
        match self.limit {
            Some(limit) => self.calls >= limit,
            None => false,
        }
    }

    /// Tries a step that holds nothing and calls nothing.
    fn try_leaf(&self, step: Step) -> (r: (bool, usize))
        requires
            self.inv(),
            step.is_plain(),
            !(step is Reference),
        ensures
            self.job().leaf(step, self.pos as int, self.depth as nat) == Outcome::decided(
                r.0,
                r.1 as int,
                1,
            ),
            r.1 <= self.toks@.len(),
    {
        let len = self.toks.len();
        match step {
            Step::Literal(tok) => {
                if self.pos < len && self.toks[self.pos] == tok {
                    (true, self.pos + 1)
                } else {
                    (false, self.pos)
                }
            },
            Step::SkipSpace => {
                if self.pos < len && self.toks[self.pos] == Tok::Space {
                    (true, self.pos + 1)
                } else {
                    (true, self.pos)
                }
            },
            Step::Indentation(offset) => {
                let levels: u128 = self.depth as u128 + offset as u128;
                let unit: u128 = self.unit as u128;
                proof {
                    lemma_width(levels as nat, unit as nat);
                }
                if levels == 0 || unit == 0 {
                    (true, self.pos)
                } else if self.pos < len && self.toks[self.pos] == Tok::Space {
                    let span: u128 = self.metas[self.pos].span as u128;
                    proof {
                        lemma_width_bound(levels as nat, unit as nat, span as nat);
                    }
                    if levels <= span && levels * unit == span {
                        (true, self.pos + 1)
                    } else {
                        (false, self.pos)
                    }
                } else {
                    (false, self.pos)
                }
            },
            _ => (self.pos == len, self.pos),
        }
    }

    /// Going down: opens the step at hand, or tries it if it is a leaf.
    /// Returns `false` where the parse is abandoned.
    fn descend(&mut self) -> (going: bool)
        requires
            old(self).inv(),
            !old(self).unwinding,
        ensures
            going ==> final(self).moved(old(self)),
            !going ==> old(self).finish().verdict is Abandoned && *final(self) == *old(self)
                && old(self).job().stuck(old(self)@),
    {
        let ghost job = self.job();
        let ghost control = ints(self.control@);
        let ghost marks = ints(self.marks@);
        let at = self.at;
        let step = self.program.at(at);
        // Read for their bounds: no index of a step, and no count of open
        // steps, is more than a `usize` holds.
        let _ = self.program.len();
        proof {
            lemma_ints_push(self.control@, at);
            lemma_ints_push(self.marks@, self.pos);
            job.lemma_push(control, at as int);
            job.lemma_counts_bounded(control.push(at as int));
            assert(job.grammar.is_rule(at as int) || !job.grammar.is_rule(at as int));
            assert(job.grammar.is_block(at as int) || !job.grammar.is_block(at as int));
        }
        match step {
            Step::RuleStart(symbol) => {
                proof {
                    job.lemma_enter_rule(control, marks, at as int, self.pos as int);
                }
                self.control.push(at);
                self.marks.push(self.pos);
                let _ = self.control.len();
                if symbol.opens_level() {
                    self.depth += 1;
                }
                self.at = at + 1;
                true
            },
            Step::Reference(symbol) => {
                if self.pos == self.toks.len() {
                    self.matched = false;
                    self.at = at + 1;
                    self.unwinding = true;
                    true
                } else if self.at_limit() {
                    false
                } else {
                    match self.program.entry(symbol) {
                        Some(entry) => {
                            proof {
                                job.lemma_enter_call(control, marks, at as int, self.pos as int, symbol);
                            }
                            self.control.push(at);
                            let _ = self.control.len();
                            self.calls += 1;
                            self.at = entry;
                            true
                        },
                        None => {
                            self.matched = false;
                            self.at = at + 1;
                            self.unwinding = true;
                            true
                        },
                    }
                }
            },
            Step::Sequence(_) | Step::Choice(_) | Step::Optional(_) | Step::Repeat(_) => {
                proof {
                    job.lemma_enter_block(control, marks, at as int, self.pos as int);
                }
                self.control.push(at);
                self.marks.push(self.pos);
                self.at = at + 1;
                true
            },
            _ => {
                let (matched, pos) = self.try_leaf(step);
                self.matched = matched;
                self.pos = pos;
                self.at = at + 1;
                self.unwinding = true;
                true
            },
        }
    }

    /// Going up: decides what the innermost open step does with the result
    /// so far.
    fn unwind(&mut self)
        requires
            old(self).inv(),
            old(self).unwinding,
            old(self).control@.len() > 0,
        ensures
            final(self).moved(old(self)),
    {
        let ghost job = self.job();
        let ghost control = ints(self.control@);
        let ghost marks = ints(self.marks@);
        let top = self.control[self.control.len() - 1];
        let step = self.program.at(top);
        let _ = self.program.len();
        proof {
            lemma_ints_drop_last(self.control@);
            job.lemma_counts_bounded(control.drop_last());
            if self.marks@.len() > 0 {
                lemma_ints_drop_last(self.marks@);
                lemma_ints_update_last(self.marks@, self.pos);
            }
            assert(job.grammar.is_block(top as int) || !job.grammar.is_block(top as int));
        }
        match step {
            Step::RuleStart(symbol) => {
                self.control.pop();
                self.marks.pop();
                if symbol.opens_level() {
                    self.depth -= 1;
                }
            },
            Step::Reference(_) => {
                self.control.pop();
                self.calls -= 1;
                self.at = top + 1;
            },
            Step::Sequence(end) => {
                if !self.matched {
                    self.at = end;
                    self.control.pop();
                    self.pos = self.marks.pop().unwrap();
                } else if self.at >= end {
                    self.control.pop();
                    self.marks.pop();
                } else {
                    self.unwinding = false;
                }
            },
            Step::Choice(end) => {
                if self.matched {
                    self.at = end;
                    self.control.pop();
                    self.marks.pop();
                } else if self.at >= end {
                    self.control.pop();
                    self.pos = self.marks.pop().unwrap();
                } else {
                    self.pos = self.marks[self.marks.len() - 1];
                    self.unwinding = false;
                }
            },
            Step::Optional(end) => {
                if !self.matched {
                    self.at = end;
                    self.control.pop();
                    self.pos = self.marks.pop().unwrap();
                    self.matched = true;
                } else if self.at >= end {
                    self.control.pop();
                    self.marks.pop();
                } else {
                    self.unwinding = false;
                }
            },
            Step::Repeat(end) => {
                if !self.matched {
                    self.at = end;
                    self.control.pop();
                    self.pos = self.marks.pop().unwrap();
                    self.matched = true;
                } else if self.at >= end {
                    let last = self.marks.len() - 1;
                    if self.pos > self.marks[last] {
                        self.marks[last] = self.pos;
                        self.at = top + 1;
                        self.unwinding = false;
                    } else {
                        self.control.pop();
                        self.marks.pop();
                    }
                } else {
                    self.unwinding = false;
                }
            },
            _ => {},
        }
    }
}

/// A product of natural numbers is 0 where one of them is.
proof fn lemma_width(levels: nat, unit: nat)
    ensures
        (levels * unit == 0) == (levels == 0 || unit == 0),
{
    assert((levels * unit == 0) == (levels == 0 || unit == 0)) by (nonlinear_arith);
}

/// Where there are no more levels than spaces, the width fits in 128 bits;
/// where there are more, the width is more than the spaces.
proof fn lemma_width_bound(levels: nat, unit: nat, span: nat)
    requires
        unit > 0,
        unit <= 0xffff_ffff_ffff_ffff,
        span <= 0xffff_ffff_ffff_ffff,
    ensures
        levels <= span ==> levels * unit <= 0xffff_ffff_ffff_fffe_0000_0000_0000_0001,
        levels > span ==> levels * unit > span,
{
    assert(levels <= span ==> levels * unit <= 0xffff_ffff_ffff_fffe_0000_0000_0000_0001)
        by (nonlinear_arith)
        requires
            unit <= 0xffff_ffff_ffff_ffff,
            span <= 0xffff_ffff_ffff_ffff,
    ;
    assert(levels > span ==> levels * unit > span) by (nonlinear_arith)
        requires
            unit > 0,
    ;
}

/// Runs `program` over the tokens from the rule named `entry`, and returns
/// the number of tokens that the rule takes from the beginning, if it
/// matches there. It returns nothing where the rule fails, and where the
/// parse does not end: where rules call rules for ever, and no room would
/// be enough.
///
/// `toks_meta` holds for each token where it stands, and `indent_unit` is the
/// number of spaces of one level of indentation.
pub fn parse(
    program: &Program,
    toks: &[Tok],
    toks_meta: &[TokMeta],
    indent_unit: usize,
    entry: Symbol,
) -> (r: Option<usize>)
    requires
        toks@.len() == toks_meta@.len(),
    ensures
        r == Parse::of(
            program@,
            Source { toks: toks@, metas: toks_meta@, unit: indent_unit as nat },
        ).outcome(entry).taken(),
{
    let mut machine = match Interpreter::new(program, toks, toks_meta, indent_unit, entry) {
        Some(machine) => machine,
        None => {
            return None;
        },
    };
    let ghost job = machine.job();
    let ghost goal = job.outcome(entry);
    while !machine.finished()
        invariant
            machine.wf(),
            machine.job() == job,
            goal == job.outcome(entry),
            job == Parse::of(
                program@,
                Source { toks: toks@, metas: toks_meta@, unit: indent_unit as nat },
            ),
            job.finish(machine@).same(goal),
        decreases job.finish(machine@).work,
    {
        if !machine.step() {
            return None;
        }
    }
    machine.result()
}

} // verus!


