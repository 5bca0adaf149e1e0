//! The limit on the nesting of calls cuts no parse that ends.
//!
//! A parse is tried with room for a number of nested calls of rules, and is
//! abandoned where it would nest deeper. More room never changes a parse
//! that ended with less ([`Parse::law_room`]). And no parse needs more room
//! than [`Parse::bound`] gives ([`Parse::law_limit`]): what a rule does
//! depends on its symbol, on the position and on the open levels of
//! indentation as far as the tokens can tell them apart, so a parse that
//! nests deeper than there are such triples calls a rule from itself where
//! nothing has changed, and goes on so for ever.
use crate::grammar::{Step, Symbol, SYMBOLS};
use crate::interpreter::State;
use crate::semantics::{indent_width, max_span, Outcome, Parse, Verdict};
use vstd::prelude::*;

verus! {

/// A call of a rule: the rule's name, the position at which it is entered,
/// and the open levels of indentation around it.
pub struct Call {
    pub symbol: Symbol,
    pub pos: int,
    pub depth: nat,
}

/// No token spans more than the greatest span.
pub proof fn lemma_max_span(metas: Seq<crate::tokenize::TokMeta>, i: int)
    requires
        0 <= i < metas.len(),
    ensures
        metas[i].span <= max_span(metas),
    decreases metas.len(),
{
    if i < metas.len() - 1 {
        lemma_max_span(metas.drop_last(), i);
    }
}

/// Different numbers below a bound are no more than the bound.
pub proof fn lemma_pigeons(holes: Seq<int>, bound: int)
    requires
        0 <= bound,
        forall|i: int| 0 <= i < holes.len() ==> 0 <= #[trigger] holes[i] < bound,
        forall|i: int, j: int| 0 <= i < j < holes.len() ==> holes[i] != holes[j],
    ensures
        holes.len() <= bound,
    decreases bound,
{
    if holes.len() > 0 {
        assert(0 <= holes[0] < bound);
        if exists|i: int| 0 <= i < holes.len() && holes[i] == bound - 1 {
            let at = choose|i: int| 0 <= i < holes.len() && holes[i] == bound - 1;
            let others = holes.subrange(0, at) + holes.subrange(at + 1, holes.len() as int);
            assert forall|i: int| 0 <= i < others.len() implies 0 <= #[trigger] others[i] < bound
                - 1 by {
                if i < at {
                    assert(others[i] == holes[i]);
                } else {
                    assert(others[i] == holes[i + 1]);
                }
            }
            assert forall|i: int, j: int| 0 <= i < j < others.len() implies others[i]
                != others[j] by {
                let a = if i < at {
                    i
                } else {
                    i + 1
                };
                let b = if j < at {
                    j
                } else {
                    j + 1
                };
                assert(others[i] == holes[a]);
                assert(others[j] == holes[b]);
            }
            lemma_pigeons(others, bound - 1);
            assert(others.len() == holes.len() - 1);
        } else {
            assert forall|i: int| 0 <= i < holes.len() implies 0 <= #[trigger] holes[i] < bound
                - 1 by {
                assert(holes[i] != bound - 1);
            }
            lemma_pigeons(holes, bound - 1);
        }
    }
}

impl Parse {
    /// The open levels as far as the tokens can tell them apart. Where a
    /// level is no spaces wide, all numbers of levels are alike; else those
    /// above the greatest span are, for no token is as wide as they ask.
    pub open spec fn level_class(self, depth: nat) -> nat {
        if self.source.unit == 0 {
            0
        } else if depth > max_span(self.source.metas) {
            max_span(self.source.metas) + 1
        } else {
            depth
        }
    }

    /// The entry of the rule that a call enters.
    pub open spec fn entry_of(self, call: Call) -> int {
        self.grammar.entry(call.symbol).unwrap() as int
    }

    /// The outcome of a call with room for `room` calls inside it.
    pub open spec fn called(self, call: Call, room: nat) -> Outcome {
        self.eval(self.entry_of(call), call.pos, call.depth, room)
    }

    /// Does a call need room for exactly `need` calls inside it to end?
    pub open spec fn needs(self, call: Call, need: nat) -> bool {
        &&& 0 <= call.pos < self.len()
        &&& self.grammar.entry(call.symbol) is Some
        &&& !(self.called(call, need).verdict is Abandoned)
        &&& need >= 1 ==> self.called(call, (need - 1) as nat).verdict is Abandoned
    }

    /// A number for a call, the same for calls that are alike.
    pub open spec fn code(self, call: Call) -> int {
        (self.level_class(call.depth) * self.len() + call.pos) * SYMBOLS + call.symbol.ord()
    }

    /// More room does not change what ended with less.
    pub proof fn law_room(self, at: int, pos: int, depth: nat, room: nat, more: nat)
        requires
            room <= more,
            !(self.eval(at, pos, depth, room).verdict is Abandoned),
        ensures
            self.eval(at, pos, depth, more) == self.eval(at, pos, depth, room),
        decreases room, self.after(at) - at, self.len() - pos, 0int,
    {
        if 0 <= at < self.steps().len() {
            match self.steps()[at] {
                Step::RuleStart(symbol) => {
                    if !self.grammar.is_rule(at + 1) {
                        let inner = if symbol.nests() {
                            depth + 1
                        } else {
                            depth
                        };
                        self.law_room(at + 1, pos, inner as nat, room, more);
                    }
                },
                Step::Reference(symbol) => {
                    if pos < self.len() && self.grammar.entry(symbol) is Some {
                        self.law_room(
                            self.grammar.entry(symbol).unwrap() as int,
                            pos,
                            depth,
                            (room - 1) as nat,
                            (more - 1) as nat,
                        );
                    }
                },
                Step::Sequence(end) => {
                    if at + 1 < end {
                        self.lemma_room_all(at + 1, end as int, pos, depth, room, more);
                    }
                },
                Step::Choice(end) => {
                    if at + 1 < end {
                        self.lemma_room_any(at + 1, end as int, pos, depth, room, more);
                    }
                },
                Step::Optional(end) => {
                    if at + 1 < end {
                        self.lemma_room_all(at + 1, end as int, pos, depth, room, more);
                    }
                },
                Step::Repeat(end) => {
                    if at + 1 < end {
                        self.lemma_room_loop(at, end as int, pos, depth, room, more);
                    }
                },
                _ => {},
            }
        }
    }

    /// The same of steps one after the other.
    pub proof fn lemma_room_all(
        self,
        at: int,
        end: int,
        pos: int,
        depth: nat,
        room: nat,
        more: nat,
    )
        requires
            room <= more,
            !(self.eval_all(at, end, pos, depth, room).verdict is Abandoned),
        ensures
            self.eval_all(at, end, pos, depth, more) == self.eval_all(at, end, pos, depth, room),
        decreases room, end - at, self.len() - pos, 1int,
    {
        if at < end && self.after(at) <= end {
            let first = self.eval(at, pos, depth, room);
            self.law_room(at, pos, depth, room, more);
            if first.verdict is Matched {
                self.lemma_room_all(self.after(at), end, first.pos, depth, room, more);
            }
        }
    }

    /// The same of the first of some steps that matches.
    pub proof fn lemma_room_any(
        self,
        at: int,
        end: int,
        pos: int,
        depth: nat,
        room: nat,
        more: nat,
    )
        requires
            room <= more,
            !(self.eval_any(at, end, pos, depth, room).verdict is Abandoned),
        ensures
            self.eval_any(at, end, pos, depth, more) == self.eval_any(at, end, pos, depth, room),
        decreases room, end - at, self.len() - pos, 1int,
    {
        if at < end && self.after(at) <= end {
            let first = self.eval(at, pos, depth, room);
            self.law_room(at, pos, depth, room, more);
            if first.verdict is Failed {
                self.lemma_room_any(self.after(at), end, pos, depth, room, more);
            }
        }
    }

    /// The same of a repetition.
    pub proof fn lemma_room_loop(
        self,
        at: int,
        end: int,
        pos: int,
        depth: nat,
        room: nat,
        more: nat,
    )
        requires
            room <= more,
            !(self.eval_loop(at, end, pos, depth, room).verdict is Abandoned),
        ensures
            self.eval_loop(at, end, pos, depth, more) == self.eval_loop(at, end, pos, depth, room),
        decreases room, end - at - 1, self.len() - pos, 2int,
    {
        if at + 1 < end {
            let round = self.eval_all(at + 1, end, pos, depth, room);
            self.lemma_room_all(at + 1, end, pos, depth, room, more);
            if round.verdict is Matched && pos < round.pos <= self.len() {
                self.lemma_room_loop(at, end, round.pos, depth, room, more);
            }
        }
    }

    /// A leaf cannot tell apart open levels of one class.
    proof fn lemma_class_leaf(self, step: Step, pos: int, one: nat, other: nat)
        requires
            self.level_class(one) == self.level_class(other),
        ensures
            self.leaf(step, pos, one) == self.leaf(step, pos, other),
    {
        if let Step::Indentation(offset) = step {
            let unit = self.source.unit;
            let most = max_span(self.source.metas);
            let a = indent_width(one, offset as nat, unit);
            let b = indent_width(other, offset as nat, unit);
            if unit == 0 {
                assert(a == 0 && b == 0) by (nonlinear_arith)
                    requires
                        a == (one + offset) * unit,
                        b == (other + offset) * unit,
                        unit == 0,
                ;
            } else if one != other {
                assert(a > most && b > most) by (nonlinear_arith)
                    requires
                        a == (one + offset) * unit,
                        b == (other + offset) * unit,
                        unit >= 1,
                        one > most,
                        other > most,
                        offset >= 0,
                ;
                if 0 <= pos < self.source.metas.len() {
                    lemma_max_span(self.source.metas, pos);
                }
            }
        }
    }

    /// What a step does lies in the class of the open levels alone.
    pub proof fn law_class(self, at: int, pos: int, one: nat, other: nat, room: nat)
        requires
            self.level_class(one) == self.level_class(other),
        ensures
            self.eval(at, pos, one, room) == self.eval(at, pos, other, room),
        decreases room, self.after(at) - at, self.len() - pos, 0int,
    {
        if 0 <= at < self.steps().len() {
            match self.steps()[at] {
                Step::RuleStart(symbol) => {
                    if !self.grammar.is_rule(at + 1) {
                        if symbol.nests() {
                            self.law_class(at + 1, pos, one + 1, other + 1, room);
                        } else {
                            self.law_class(at + 1, pos, one, other, room);
                        }
                    }
                },
                Step::Reference(symbol) => {
                    if pos < self.len() && room > 0 && self.grammar.entry(symbol) is Some {
                        self.law_class(
                            self.grammar.entry(symbol).unwrap() as int,
                            pos,
                            one,
                            other,
                            (room - 1) as nat,
                        );
                    }
                },
                Step::Sequence(end) => {
                    if at + 1 < end {
                        self.lemma_class_all(at + 1, end as int, pos, one, other, room);
                    }
                },
                Step::Choice(end) => {
                    if at + 1 < end {
                        self.lemma_class_any(at + 1, end as int, pos, one, other, room);
                    }
                },
                Step::Optional(end) => {
                    if at + 1 < end {
                        self.lemma_class_all(at + 1, end as int, pos, one, other, room);
                    }
                },
                Step::Repeat(end) => {
                    if at + 1 < end {
                        self.lemma_class_loop(at, end as int, pos, one, other, room);
                    }
                },
                step => {
                    self.lemma_class_leaf(step, pos, one, other);
                },
            }
        }
    }

    /// The same of steps one after the other.
    pub proof fn lemma_class_all(
        self,
        at: int,
        end: int,
        pos: int,
        one: nat,
        other: nat,
        room: nat,
    )
        requires
            self.level_class(one) == self.level_class(other),
        ensures
            self.eval_all(at, end, pos, one, room) == self.eval_all(at, end, pos, other, room),
        decreases room, end - at, self.len() - pos, 1int,
    {
        if at < end && self.after(at) <= end {
            let first = self.eval(at, pos, one, room);
            self.law_class(at, pos, one, other, room);
            if first.verdict is Matched {
                self.lemma_class_all(self.after(at), end, first.pos, one, other, room);
            }
        }
    }

    /// The same of the first of some steps that matches.
    pub proof fn lemma_class_any(
        self,
        at: int,
        end: int,
        pos: int,
        one: nat,
        other: nat,
        room: nat,
    )
        requires
            self.level_class(one) == self.level_class(other),
        ensures
            self.eval_any(at, end, pos, one, room) == self.eval_any(at, end, pos, other, room),
        decreases room, end - at, self.len() - pos, 1int,
    {
        if at < end && self.after(at) <= end {
            let first = self.eval(at, pos, one, room);
            self.law_class(at, pos, one, other, room);
            if first.verdict is Failed {
                self.lemma_class_any(self.after(at), end, pos, one, other, room);
            }
        }
    }

    /// The same of a repetition.
    pub proof fn lemma_class_loop(
        self,
        at: int,
        end: int,
        pos: int,
        one: nat,
        other: nat,
        room: nat,
    )
        requires
            self.level_class(one) == self.level_class(other),
        ensures
            self.eval_loop(at, end, pos, one, room) == self.eval_loop(at, end, pos, other, room),
        decreases room, end - at - 1, self.len() - pos, 2int,
    {
        if at + 1 < end {
            let round = self.eval_all(at + 1, end, pos, one, room);
            self.lemma_class_all(at + 1, end, pos, one, other, room);
            if round.verdict is Matched && pos < round.pos <= self.len() {
                self.lemma_class_loop(at, end, round.pos, one, other, room);
            }
        }
    }
}


/// The number of a call is below the number of ways in which calls can
/// stand.
proof fn lemma_code_bound(ord: int, pos: int, class: int, len: int, most: int)
    requires
        0 <= ord < 13,
        0 <= pos < len,
        0 <= class <= most + 1,
    ensures
        0 <= (class * len + pos) * 13 + ord < len * 13 * (most + 2),
{
    assert(class * len + pos < (most + 2) * len) by (nonlinear_arith)
        requires
            0 <= pos < len,
            0 <= class <= most + 1,
    ;
    assert(0 <= class * len) by (nonlinear_arith)
        requires
            0 <= class,
            0 <= len,
    ;
    assert((most + 2) * len * 13 == len * 13 * (most + 2)) by (nonlinear_arith);
}

/// Calls with one number are called at one position, in one class of
/// levels.
proof fn lemma_code_apart(pos: int, class: int, other_pos: int, other_class: int, len: int)
    requires
        0 <= pos < len,
        0 <= other_pos < len,
        0 <= class,
        0 <= other_class,
        class * len + pos == other_class * len + other_pos,
    ensures
        pos == other_pos,
        class == other_class,
{
    if class < other_class {
        assert(other_class * len >= class * len + len) by (nonlinear_arith)
            requires
                class < other_class,
                0 < len,
        ;
    } else if other_class < class {
        assert(class * len >= other_class * len + len) by (nonlinear_arith)
            requires
                other_class < class,
                0 < len,
        ;
    }
}

impl Parse {
    /// A step that ends with some room and not with one call less holds a
    /// call that needs all that room but one.
    proof fn lemma_deeper(self, at: int, pos: int, depth: nat, room: nat) -> (call: Call)
        requires
            room >= 1,
            0 <= pos <= self.len(),
            !(self.eval(at, pos, depth, room).verdict is Abandoned),
            self.eval(at, pos, depth, (room - 1) as nat).verdict is Abandoned,
        ensures
            self.needs(call, (room - 1) as nat),
        decreases room, self.after(at) - at, self.len() - pos, 0int,
    {
        match self.steps()[at] {
            Step::RuleStart(symbol) => {
                let inner = if symbol.nests() {
                    depth + 1
                } else {
                    depth
                };
                self.lemma_deeper(at + 1, pos, inner as nat, room)
            },
            Step::Reference(symbol) => {
                let call = Call { symbol, pos, depth };
                let less = (room - 1) as nat;
                assert(0 <= at < self.steps().len());
                assert(pos < self.len());
                assert(self.grammar.entry(symbol) is Some);
                let entry = self.entry_of(call);
                assert(self.eval(at, pos, depth, room) == self.eval(
                    entry,
                    pos,
                    depth,
                    less,
                ).enclosed());
                if less >= 1 {
                    assert(self.eval(at, pos, depth, less) == self.eval(
                        entry,
                        pos,
                        depth,
                        (less - 1) as nat,
                    ).enclosed());
                }
                call
            },
            Step::Sequence(end) => self.lemma_deeper_all(at + 1, end as int, pos, depth, room),
            Step::Choice(end) => self.lemma_deeper_any(at + 1, end as int, pos, depth, room),
            Step::Optional(end) => self.lemma_deeper_all(at + 1, end as int, pos, depth, room),
            Step::Repeat(end) => self.lemma_deeper_loop(at, end as int, pos, depth, room),
            _ => {
                assert(false);
                Call { symbol: Symbol::Module, pos, depth }
            },
        }
    }

    proof fn lemma_deeper_all(self, at: int, end: int, pos: int, depth: nat, room: nat) -> (call:
        Call)
        requires
            room >= 1,
            0 <= pos <= self.len(),
            !(self.eval_all(at, end, pos, depth, room).verdict is Abandoned),
            self.eval_all(at, end, pos, depth, (room - 1) as nat).verdict is Abandoned,
        ensures
            self.needs(call, (room - 1) as nat),
        decreases room, end - at, self.len() - pos, 1int,
    {
        let less = (room - 1) as nat;
        let first = self.eval(at, pos, depth, less);
        if first.verdict is Abandoned {
            self.lemma_deeper(at, pos, depth, room)
        } else {
            self.law_room(at, pos, depth, less, room);
            self.law_backtrack(at, pos, depth, less);
            self.lemma_deeper_all(self.after(at), end, first.pos, depth, room)
        }
    }

    proof fn lemma_deeper_any(self, at: int, end: int, pos: int, depth: nat, room: nat) -> (call:
        Call)
        requires
            room >= 1,
            0 <= pos <= self.len(),
            !(self.eval_any(at, end, pos, depth, room).verdict is Abandoned),
            self.eval_any(at, end, pos, depth, (room - 1) as nat).verdict is Abandoned,
        ensures
            self.needs(call, (room - 1) as nat),
        decreases room, end - at, self.len() - pos, 1int,
    {
        let less = (room - 1) as nat;
        let first = self.eval(at, pos, depth, less);
        if first.verdict is Abandoned {
            self.lemma_deeper(at, pos, depth, room)
        } else {
            self.law_room(at, pos, depth, less, room);
            self.lemma_deeper_any(self.after(at), end, pos, depth, room)
        }
    }

    proof fn lemma_deeper_loop(self, at: int, end: int, pos: int, depth: nat, room: nat) -> (call:
        Call)
        requires
            room >= 1,
            0 <= pos <= self.len(),
            !(self.eval_loop(at, end, pos, depth, room).verdict is Abandoned),
            self.eval_loop(at, end, pos, depth, (room - 1) as nat).verdict is Abandoned,
        ensures
            self.needs(call, (room - 1) as nat),
        decreases room, end - at - 1, self.len() - pos, 2int,
    {
        let less = (room - 1) as nat;
        let round = self.eval_all(at + 1, end, pos, depth, less);
        if round.verdict is Abandoned {
            self.lemma_deeper_all(at + 1, end, pos, depth, room)
        } else {
            self.lemma_room_all(at + 1, end, pos, depth, less, room);
            self.lemma_deeper_loop(at, end, round.pos, depth, room)
        }
    }

    /// A call that needs room for `need` calls holds a call that needs one
    /// less, and so on down to none: calls for every need from `need` down.
    proof fn lemma_chain(self, call: Call, need: nat) -> (chain: Seq<Call>)
        requires
            self.needs(call, need),
        ensures
            chain.len() == need + 1,
            forall|i: int| 0 <= i <= need ==> self.needs(#[trigger] chain[i], i as nat),
        decreases need,
    {
        if need == 0 {
            seq![call]
        } else {
            let inner = self.lemma_deeper(self.entry_of(call), call.pos, call.depth, need);
            let chain = self.lemma_chain(inner, (need - 1) as nat);
            chain.push(call)
        }
    }

    /// Calls that are alike need the same room.
    proof fn lemma_alike(self, one: Call, other: Call, less: nat, more: nat)
        requires
            self.needs(one, less),
            self.needs(other, more),
            less < more,
        ensures
            self.code(one) != self.code(other),
    {
        if self.code(one) == self.code(other) {
            let len = self.len();
            let a = self.level_class(one.depth) * len + one.pos;
            let b = self.level_class(other.depth) * len + other.pos;
            assert(a == b && one.symbol.ord() == other.symbol.ord());
            lemma_code_apart(
                one.pos,
                self.level_class(one.depth) as int,
                other.pos,
                self.level_class(other.depth) as int,
                len,
            );
            assert(one.symbol == other.symbol);
            let entry = self.entry_of(one);
            self.law_class(entry, one.pos, one.depth, other.depth, less);
            self.law_room(entry, other.pos, other.depth, less, (more - 1) as nat);
        }
    }

    /// No call needs room for as many calls as the limit counts.
    proof fn lemma_need(self, call: Call, need: nat)
        requires
            self.needs(call, need),
        ensures
            need < self.bound(),
    {
        let chain = self.lemma_chain(call, need);
        let holes = Seq::new(chain.len(), |i: int| self.code(chain[i]));
        let most = max_span(self.source.metas) as int;
        assert forall|i: int| 0 <= i < holes.len() implies 0 <= #[trigger] holes[i]
            < self.bound() by {
            assert(self.needs(chain[i], i as nat));
            lemma_code_bound(
                chain[i].symbol.ord(),
                chain[i].pos,
                self.level_class(chain[i].depth) as int,
                self.len(),
                most,
            );
        }
        assert forall|i: int, j: int| 0 <= i < j < holes.len() implies holes[i] != holes[j] by {
            assert(self.needs(chain[i], i as nat));
            assert(self.needs(chain[j], j as nat));
            self.lemma_alike(chain[i], chain[j], i as nat, j as nat);
        }
        lemma_pigeons(holes, self.bound() as int);
    }

    /// The least room above `least` with which a step ends.
    proof fn lemma_least(self, at: int, pos: int, depth: nat, least: nat, room: nat) -> (enough:
        nat)
        requires
            least <= room,
            self.eval(at, pos, depth, least).verdict is Abandoned,
            !(self.eval(at, pos, depth, room).verdict is Abandoned),
        ensures
            least < enough <= room,
            !(self.eval(at, pos, depth, enough).verdict is Abandoned),
            self.eval(at, pos, depth, (enough - 1) as nat).verdict is Abandoned,
        decreases room,
    {
        if self.eval(at, pos, depth, (room - 1) as nat).verdict is Abandoned {
            room
        } else {
            self.lemma_least(at, pos, depth, least, (room - 1) as nat)
        }
    }

    /// The limit is room enough: a step that ends with any room ends the
    /// same within the limit.
    pub proof fn law_limit(self, at: int, pos: int, depth: nat, room: nat)
        requires
            0 <= pos <= self.len(),
            !(self.eval(at, pos, depth, room).verdict is Abandoned),
        ensures
            self.eval(at, pos, depth, self.bound()) == self.eval(at, pos, depth, room),
    {
        let limit = self.bound();
        if room <= limit {
            self.law_room(at, pos, depth, room, limit);
        } else if self.eval(at, pos, depth, limit).verdict is Abandoned {
            let enough = self.lemma_least(at, pos, depth, limit, room);
            let call = self.lemma_deeper(at, pos, depth, enough);
            self.lemma_need(call, (enough - 1) as nat);
        } else {
            self.law_room(at, pos, depth, limit, room);
        }
    }

    /// Does the parse from the rule named `entry` end with `room` nested
    /// calls of rules to spare?
    pub open spec fn ends_within(self, entry: Symbol, room: nat) -> bool {
        &&& self.grammar.entry(entry) is Some
        &&& !(self.eval(
            self.grammar.entry(entry).unwrap() as int,
            0,
            0,
            room,
        ).verdict is Abandoned)
    }

    /// Does the parse from the rule named `entry` end, given room enough?
    /// A parse that does not end calls rules from inside rules for ever.
    pub open spec fn ends(self, entry: Symbol) -> bool {
        exists|room: nat| self.ends_within(entry, room)
    }

    /// A parse that ends with some room has the outcome with which it ends.
    pub proof fn law_ends(self, entry: Symbol, room: nat)
        requires
            self.roomy(),
            self.ends_within(entry, room),
        ensures
            self.outcome(entry) == self.eval(
                self.grammar.entry(entry).unwrap() as int,
                0,
                0,
                room,
            ),
    {
        let at = self.grammar.entry(entry).unwrap() as int;
        self.law_limit(at, 0, 0, room);
        self.law_room(at, 0, 0, self.bound(), self.limit());
    }

    /// The outcome of a parse is abandoned where the parse does not end, and
    /// nowhere else.
    pub proof fn law_cut(self, entry: Symbol)
        requires
            self.roomy(),
            self.grammar.entry(entry) is Some,
        ensures
            self.outcome(entry).verdict is Abandoned <==> !self.ends(entry),
    {
        if self.ends(entry) {
            let room = choose|room: nat| self.ends_within(entry, room);
            self.law_ends(entry, room);
        } else {
            assert(!self.ends_within(entry, self.limit()));
        }
    }

    /// A parse that ends, from a rule that is an optional part or a
    /// repetition, matches.
    pub proof fn law_never_fails(self, entry: Symbol)
        requires
            self.grammar.well_formed(),
            self.roomy(),
            self.ends(entry),
            self.grammar.entry(entry) matches Some(at) && (self.steps()[at + 1] is Optional
                || self.steps()[at + 1] is Repeat),
        ensures
            self.outcome(entry).verdict is Matched,
            self.outcome(entry).taken() is Some,
    {
        let at = self.grammar.entry(entry).unwrap() as int;
        self.law_cut(entry);
        assert(self.grammar.is_rule(at));
        assert(self.grammar.is_block(at + 1));
        let limit = self.limit();
        if self.steps()[at + 1] is Optional {
            self.law_optional(at + 1, 0, 0, limit);
            self.law_optional(at + 1, 0, 1, limit);
        } else {
            self.law_repeat_never_fails(at + 1, 0, 0, limit);
            self.law_repeat_never_fails(at + 1, 0, 1, limit);
        }
    }

    /// A parse that ends, from a rule that is an optional part, takes what
    /// the children of that part take where they match, and nothing where
    /// one of them fails.
    pub proof fn law_optional_takes(self, entry: Symbol)
        requires
            self.grammar.well_formed(),
            self.roomy(),
            self.ends(entry),
            self.grammar.entry(entry) matches Some(at) && self.steps()[at + 1] is Optional,
        ensures
            ({
                let at = self.grammar.entry(entry).unwrap() as int;
                let depth: nat = if entry.nests() {
                    1
                } else {
                    0
                };
                let body = self.eval_all(
                    at + 2,
                    self.steps()[at + 1].end(),
                    0,
                    depth,
                    self.limit(),
                );
                self.outcome(entry).taken() == if body.verdict is Matched {
                    Some(body.pos as usize)
                } else {
                    Some(0usize)
                }
            }),
    {
        let at = self.grammar.entry(entry).unwrap() as int;
        self.law_cut(entry);
        assert(self.grammar.is_rule(at));
        assert(self.grammar.is_block(at + 1));
        self.law_optional(at + 1, 0, 0, self.limit());
        self.law_optional(at + 1, 0, 1, self.limit());
    }

    /// A parse that is abandoned does not end, however much room there is:
    /// the limit cuts no parse that ends.
    pub proof fn law_abandoned(self, entry: Symbol, room: nat)
        requires
            self.roomy(),
            self.outcome(entry).verdict is Abandoned,
        ensures
            self.grammar.entry(entry) is Some,
            self.eval(self.grammar.entry(entry).unwrap() as int, 0, 0, room).verdict is Abandoned,
    {
        let at = self.grammar.entry(entry).unwrap() as int;
        if !(self.eval(at, 0, 0, room).verdict is Abandoned) {
            self.law_limit(at, 0, 0, room);
            self.law_room(at, 0, 0, self.bound(), self.limit());
        }
    }
}


impl Parse {
    /// What a step does lies in the grammar and the source, not in the
    /// room of the parse that asks.
    pub proof fn law_same(self, other: Parse, at: int, pos: int, depth: nat, room: nat)
        requires
            self.grammar == other.grammar,
            self.source == other.source,
        ensures
            self.eval(at, pos, depth, room) == other.eval(at, pos, depth, room),
        decreases room, self.after(at) - at, self.len() - pos, 0int,
    {
        if 0 <= at < self.steps().len() {
            match self.steps()[at] {
                Step::RuleStart(symbol) => {
                    if !self.grammar.is_rule(at + 1) {
                        let inner = if symbol.nests() {
                            depth + 1
                        } else {
                            depth
                        };
                        self.law_same(other, at + 1, pos, inner as nat, room);
                    }
                },
                Step::Reference(symbol) => {
                    if pos < self.len() && room > 0 && self.grammar.entry(symbol) is Some {
                        self.law_same(
                            other,
                            self.grammar.entry(symbol).unwrap() as int,
                            pos,
                            depth,
                            (room - 1) as nat,
                        );
                    }
                },
                Step::Sequence(end) => {
                    if at + 1 < end {
                        self.lemma_same_all(other, at + 1, end as int, pos, depth, room);
                    }
                },
                Step::Choice(end) => {
                    if at + 1 < end {
                        self.lemma_same_any(other, at + 1, end as int, pos, depth, room);
                    }
                },
                Step::Optional(end) => {
                    if at + 1 < end {
                        self.lemma_same_all(other, at + 1, end as int, pos, depth, room);
                    }
                },
                Step::Repeat(end) => {
                    if at + 1 < end {
                        self.lemma_same_loop(other, at, end as int, pos, depth, room);
                    }
                },
                _ => {},
            }
        }
    }

    /// The same of steps one after the other.
    pub proof fn lemma_same_all(
        self,
        other: Parse,
        at: int,
        end: int,
        pos: int,
        depth: nat,
        room: nat,
    )
        requires
            self.grammar == other.grammar,
            self.source == other.source,
        ensures
            self.eval_all(at, end, pos, depth, room) == other.eval_all(at, end, pos, depth, room),
        decreases room, end - at, self.len() - pos, 1int,
    {
        if at < end && self.after(at) <= end {
            let first = self.eval(at, pos, depth, room);
            self.law_same(other, at, pos, depth, room);
            if first.verdict is Matched {
                self.lemma_same_all(other, self.after(at), end, first.pos, depth, room);
            }
        }
    }

    /// The same of the first of some steps that matches.
    pub proof fn lemma_same_any(
        self,
        other: Parse,
        at: int,
        end: int,
        pos: int,
        depth: nat,
        room: nat,
    )
        requires
            self.grammar == other.grammar,
            self.source == other.source,
        ensures
            self.eval_any(at, end, pos, depth, room) == other.eval_any(at, end, pos, depth, room),
        decreases room, end - at, self.len() - pos, 1int,
    {
        if at < end && self.after(at) <= end {
            let first = self.eval(at, pos, depth, room);
            self.law_same(other, at, pos, depth, room);
            if first.verdict is Failed {
                self.lemma_same_any(other, self.after(at), end, pos, depth, room);
            }
        }
    }

    /// The same of a repetition.
    pub proof fn lemma_same_loop(
        self,
        other: Parse,
        at: int,
        end: int,
        pos: int,
        depth: nat,
        room: nat,
    )
        requires
            self.grammar == other.grammar,
            self.source == other.source,
        ensures
            self.eval_loop(at, end, pos, depth, room) == other.eval_loop(at, end, pos, depth, room),
        decreases room, end - at - 1, self.len() - pos, 2int,
    {
        if at + 1 < end {
            let round = self.eval_all(at + 1, end, pos, depth, room);
            self.lemma_same_all(other, at + 1, end, pos, depth, room);
            if round.verdict is Matched && pos < round.pos <= self.len() {
                self.lemma_same_loop(other, at, end, round.pos, depth, room);
            }
        }
    }
}


impl Parse {
    /// The state after `moves` moves, or the state in which the parse ended
    /// before that.
    pub open spec fn run(self, state: State, moves: nat) -> State
        decreases moves,
    {
        if moves == 0 || state.finished() {
            state
        } else {
            self.run(self.next(state), (moves - 1) as nat)
        }
    }

    /// Where the machine comes to the end of the parse, the parse ends as
    /// the machine says, and was not abandoned.
    pub proof fn law_run(self, state: State, moves: nat)
        requires
            self.grammar.well_formed(),
            self.admits(state),
        ensures
            self.admits(self.run(state, moves)),
            self.run(state, moves).finished() ==> self.finish(state).same(
                Outcome::decided(
                    self.run(state, moves).matched,
                    self.run(state, moves).pos,
                    0,
                ),
            ),
        decreases moves,
    {
        if state.finished() {
            self.law_end(state);
        } else if moves > 0 {
            self.law_move(state);
            self.law_run(self.next(state), (moves - 1) as nat);
        }
    }

    /// A parse that ends is ended by the machine in as many moves as the
    /// outcome counts.
    pub proof fn law_run_ends(self, state: State)
        requires
            self.grammar.well_formed(),
            self.admits(state),
            !(self.finish(state).verdict is Abandoned),
        ensures
            self.run(state, self.finish(state).work).finished(),
        decreases self.finish(state).work,
    {
        if !state.finished() {
            self.law_move(state);
            self.law_run_ends(self.next(state));
        }
    }

    /// The machine of any room, wherever it comes to the end of the parse,
    /// ends with the outcome of the parse: the room that a parse is given
    /// changes no result of a machine that has more, or less, or no limit
    /// to meet.
    pub proof fn law_machine(self, machine: Parse, entry: Symbol, moves: nat)
        requires
            self.grammar.well_formed(),
            self.roomy(),
            machine.grammar == self.grammar,
            machine.source == self.source,
            self.grammar.entry(entry) is Some,
            machine.run(
                State::start(self.grammar.entry(entry).unwrap() as int),
                moves,
            ).finished(),
        ensures
            ({
                let end = machine.run(
                    State::start(self.grammar.entry(entry).unwrap() as int),
                    moves,
                );
                self.outcome(entry).same(Outcome::decided(end.matched, end.pos, 0))
            }),
    {
        let at = self.grammar.entry(entry).unwrap() as int;
        let start = State::start(at);
        assert(machine.grammar.entry(entry) == self.grammar.entry(entry));
        assert(machine.grammar.is_rule(at));
        machine.law_run(start, moves);
        machine.law_start(entry);
        self.law_same(machine, at, 0, 0, machine.room);
        assert(self.ends_within(entry, machine.room));
        self.law_ends(entry, machine.room);
    }

    /// The machine ends every parse that ends.
    pub proof fn law_machine_ends(self, entry: Symbol)
        requires
            self.grammar.well_formed(),
            self.grammar.entry(entry) is Some,
            !(self.outcome(entry).verdict is Abandoned),
        ensures
            self.run(
                State::start(self.grammar.entry(entry).unwrap() as int),
                self.outcome(entry).work,
            ).finished(),
    {
        let at = self.grammar.entry(entry).unwrap() as int;
        let start = State::start(at);
        assert(self.grammar.is_rule(at));
        self.law_start(entry);
        assert(self.finish(start) == self.outcome(entry));
        self.law_run_ends(start);
    }
}


impl Parse {
    /// What a control stack holds lies in the grammar alone.
    proof fn lemma_same_counts(self, other: Parse, control: Seq<int>)
        requires
            self.grammar == other.grammar,
        ensures
            self.open_calls(control) == other.open_calls(control),
            self.open_levels(control) == other.open_levels(control),
            self.open_marks(control) == other.open_marks(control),
        decreases control.len(),
    {
        if control.len() > 0 {
            self.lemma_same_counts(other, control.drop_last());
        }
    }

    /// Machines with different room make the same moves, as long as
    /// neither is out of room: a machine with no limit to meet makes the
    /// moves of any machine that has room left.
    pub proof fn law_same_moves(self, other: Parse, state: State)
        requires
            self.grammar == other.grammar,
            self.source == other.source,
            state.unwinding || 0 <= state.at < self.steps().len(),
            !self.stuck(state),
            !other.stuck(state),
        ensures
            self.next(state) == other.next(state),
    {
        self.lemma_same_counts(other, state.control);
        assert(self.steps() == other.steps());
        assert(self.len() == other.len());
    }
}

} // verus!




