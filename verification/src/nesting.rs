//! A grammar as it is written, nested, and as a program holds it, flat.
//!
//! A [`Tree`] is what stands under a rule: a step that holds nothing, or a
//! block with its children. [`flatten`] lays a tree out as steps, a block's
//! step first with the index at which the block ends; [`decode`] reads a
//! tree back from the steps, going by those indices alone. Given to a
//! builder, a tree comes out as `flatten` lays it, and `decode` finds it
//! again.
use crate::grammar::{Block, Draft, Grammar, Step};
use vstd::prelude::*;

verus! {

/// What stands under a rule.
pub enum Tree {
    /// A leaf or a reference.
    Leaf(Step),
    /// A block and its children.
    Group(Block, Seq<Tree>),
}

/// The trees from the second one on.
pub open spec fn rest(trees: Seq<Tree>) -> Seq<Tree> {
    trees.subrange(1, trees.len() as int)
}

/// A tree's leaves hold nothing, and each of its blocks has a child.
pub open spec fn shaped(tree: Tree) -> bool
    decreases tree,
{
    match tree {
        Tree::Leaf(step) => step.is_plain(),
        Tree::Group(_, children) => children.len() > 0 && all_shaped(children),
    }
}

/// Each of the trees is shaped.
pub open spec fn all_shaped(trees: Seq<Tree>) -> bool
    decreases trees,
{
    if trees.len() == 0 {
        true
    } else {
        shaped(trees[0]) && all_shaped(rest(trees))
    }
}

/// The number of steps that a tree takes.
pub open spec fn size(tree: Tree) -> nat
    decreases tree,
{
    match tree {
        Tree::Leaf(_) => 1,
        Tree::Group(_, children) => 1 + size_all(children),
    }
}

/// The number of steps that some trees take together.
pub open spec fn size_all(trees: Seq<Tree>) -> nat
    decreases trees,
{
    if trees.len() == 0 {
        0
    } else {
        size(trees[0]) + size_all(rest(trees))
    }
}

/// The steps of a tree whose first step has the index `base`.
pub open spec fn flatten(tree: Tree, base: int) -> Seq<Step>
    decreases tree,
{
    match tree {
        Tree::Leaf(step) => seq![step],
        Tree::Group(block, children) => seq![
            block.step((base + 1 + size_all(children)) as usize),
        ] + flatten_all(children, base + 1),
    }
}

/// The steps of some trees, one after the other, the first step at `base`.
pub open spec fn flatten_all(trees: Seq<Tree>, base: int) -> Seq<Step>
    decreases trees,
{
    if trees.len() == 0 {
        Seq::empty()
    } else {
        flatten(trees[0], base) + flatten_all(rest(trees), base + size(trees[0]))
    }
}

/// The tree that begins at step `at`, read from the indices at which the
/// blocks end.
pub open spec fn decode(g: Grammar, at: int) -> Tree
    decreases g.after_plain(at) - at, 0int,
{
    if g.is_block(at) && g.steps[at].end() > at {
        Tree::Group(g.steps[at].block().unwrap(), decode_all(g, at + 1, g.steps[at].end()))
    } else {
        Tree::Leaf(g.steps[at])
    }
}

/// The trees that begin at the steps from `at` to `end`.
pub open spec fn decode_all(g: Grammar, at: int, end: int) -> Seq<Tree>
    decreases end - at, 1int,
{
    if at >= end || g.after_plain(at) > end {
        Seq::empty()
    } else {
        seq![decode(g, at)] + decode_all(g, g.after_plain(at), end)
    }
}

/// A tree lays out as many steps as its size says.
pub proof fn lemma_flatten_len(tree: Tree, base: int)
    ensures
        flatten(tree, base).len() == size(tree),
        size(tree) >= 1,
    decreases tree,
{
    match tree {
        Tree::Leaf(_) => {},
        Tree::Group(_, children) => {
            lemma_flatten_all_len(children, base + 1);
        },
    }
}

/// Trees lay out as many steps as their sizes say.
pub proof fn lemma_flatten_all_len(trees: Seq<Tree>, base: int)
    ensures
        flatten_all(trees, base).len() == size_all(trees),
        all_shaped(trees) && trees.len() > 0 ==> size_all(trees) >= 1,
    decreases trees,
{
    if trees.len() > 0 {
        lemma_flatten_len(trees[0], base);
        lemma_flatten_all_len(rest(trees), base + size(trees[0]));
    }
}

/// Reading back what was laid out: where the steps from `at` on are those
/// of a tree, `decode` finds that tree there, and the tree ends where its
/// size says.
pub proof fn law_round_trip(g: Grammar, at: int, tree: Tree)
    requires
        shaped(tree),
        0 <= at,
        at + size(tree) <= g.steps.len() <= usize::MAX,
        g.steps.subrange(at, at + size(tree)) == flatten(tree, at),
    ensures
        decode(g, at) == tree,
        g.after_plain(at) == at + size(tree),
    decreases tree,
{
    lemma_flatten_len(tree, at);
    let window = g.steps.subrange(at, at + size(tree));
    assert(window[0] == g.steps[at]);
    match tree {
        Tree::Leaf(step) => {
            assert(flatten(tree, at)[0] == step);
        },
        Tree::Group(block, children) => {
            let end = at + 1 + size_all(children);
            lemma_flatten_all_len(children, at + 1);
            assert(flatten(tree, at)[0] == block.step(end as usize));
            assert(g.steps[at].end() == end);
            assert(g.steps.subrange(at + 1, end) =~= flatten_all(children, at + 1)) by {
                assert forall|i: int| 0 <= i < end - at - 1 implies #[trigger] g.steps.subrange(
                    at + 1,
                    end,
                )[i] == flatten_all(children, at + 1)[i] by {
                    assert(window[i + 1] == g.steps[at + 1 + i]);
                }
            }
            lemma_round_trip_all(g, at + 1, end, children);
        },
    }
}

/// Reading back some trees that were laid out one after the other.
pub proof fn lemma_round_trip_all(g: Grammar, at: int, end: int, trees: Seq<Tree>)
    requires
        all_shaped(trees),
        0 <= at,
        end == at + size_all(trees),
        end <= g.steps.len() <= usize::MAX,
        g.steps.subrange(at, end) == flatten_all(trees, at),
    ensures
        decode_all(g, at, end) == trees,
    decreases trees,
{
    if trees.len() == 0 {
        assert(trees =~= Seq::empty());
    } else {
        let first = trees[0];
        let next = at + size(first);
        lemma_flatten_len(first, at);
        lemma_flatten_all_len(rest(trees), next);
        let window = g.steps.subrange(at, end);
        assert(g.steps.subrange(at, next) =~= flatten(first, at)) by {
            assert forall|i: int| 0 <= i < next - at implies #[trigger] g.steps.subrange(
                at,
                next,
            )[i] == flatten(first, at)[i] by {
                assert(window[i] == g.steps[at + i]);
            }
        }
        assert(g.steps.subrange(next, end) =~= flatten_all(rest(trees), next)) by {
            assert forall|i: int| 0 <= i < end - next implies #[trigger] g.steps.subrange(
                next,
                end,
            )[i] == flatten_all(rest(trees), next)[i] by {
                assert(window[i + size(first)] == g.steps[next + i]);
            }
        }
        law_round_trip(g, at, first);
        lemma_round_trip_all(g, next, end, rest(trees));
        assert(seq![first] + rest(trees) =~= trees);
    }
}

impl Draft {
    /// The draft after a tree is given: a leaf as it is, a block opened,
    /// filled with its children and closed.
    pub open spec fn given(self, tree: Tree) -> Draft
        decreases tree,
    {
        match tree {
            Tree::Leaf(step) => self.placed(step),
            Tree::Group(block, children) => self.opened(block).given_all(children).closed(),
        }
    }

    /// The draft after some trees are given, one after the other.
    pub open spec fn given_all(self, trees: Seq<Tree>) -> Draft
        decreases trees,
    {
        if trees.len() == 0 {
            self
        } else {
            self.given(trees[0]).given_all(rest(trees))
        }
    }

    /// A tree that is given where a step is awaited adds the steps that
    /// `flatten` lays out, and leaves no block open that was not open
    /// before.
    pub proof fn law_given(self, tree: Tree)
        requires
            shaped(tree),
            self.defect is None,
            self.awaits_step(),
            self.steps.len() + size(tree) <= usize::MAX,
        ensures
            self.given(tree) == (Draft {
                steps: self.steps + flatten(tree, self.steps.len() as int),
                ..self
            }),
        decreases tree,
    {
        let n = self.steps.len() as int;
        match tree {
            Tree::Leaf(step) => {
                assert(self.steps.push(step) =~= self.steps + seq![step]);
            },
            Tree::Group(block, children) => {
                let opened = self.opened(block);
                lemma_flatten_all_len(children, n + 1);
                opened.lemma_given_all(children);
                let filled = opened.given_all(children);
                let end = n + 1 + size_all(children);
                assert(filled.open.last() == n);
                assert(filled.open.drop_last() =~= self.open);
                assert(filled.steps[n] == block.step(0));
                assert(filled.closed().steps =~= self.steps + flatten(tree, n));
            },
        }
    }

    /// Trees that are given inside an open block add their steps.
    pub proof fn lemma_given_all(self, trees: Seq<Tree>)
        requires
            all_shaped(trees),
            self.defect is None,
            self.open.len() > 0,
            self.steps.len() + size_all(trees) <= usize::MAX,
        ensures
            self.given_all(trees) == (Draft {
                steps: self.steps + flatten_all(trees, self.steps.len() as int),
                ..self
            }),
        decreases trees,
    {
        let n = self.steps.len() as int;
        if trees.len() == 0 {
            assert(self.steps + flatten_all(trees, n) =~= self.steps);
        } else {
            let first = trees[0];
            lemma_flatten_len(first, n);
            self.law_given(first);
            let next = self.given(first);
            next.lemma_given_all(rest(trees));
            assert(self.steps + flatten_all(trees, n) =~= next.steps + flatten_all(
                rest(trees),
                next.steps.len() as int,
            ));
        }
    }

    /// The round trip: a tree that is given to a builder is found again in
    /// the steps, at the index at which its first step was laid.
    pub proof fn law_given_is_found(self, tree: Tree)
        requires
            shaped(tree),
            self.defect is None,
            self.awaits_step(),
            self.steps.len() + size(tree) <= usize::MAX,
        ensures
            decode(self.given(tree).grammar(), self.steps.len() as int) == tree,
            self.given(tree).grammar().after_plain(self.steps.len() as int) == self.steps.len()
                + size(tree),
    {
        let n = self.steps.len() as int;
        self.law_given(tree);
        lemma_flatten_len(tree, n);
        let g = self.given(tree).grammar();
        assert(g.steps.subrange(n, n + size(tree)) =~= flatten(tree, n));
        law_round_trip(g, n, tree);
    }
}

} // verus!
