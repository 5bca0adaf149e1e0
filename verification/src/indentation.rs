//! The width of one level of indentation, estimated from the leading spaces
//! of the lines.
//!
//! Lines are not indented evenly: a continuation line stands deeper than a
//! level, and a line may close several levels at once. So the width is
//! estimated from the changes: whenever the spaces at the beginning of a
//! line differ from those seen last, the difference is recorded. Each size
//! of a recorded change is a candidate for the width, and the others vote on
//! it.
use crate::tokenize::{Tok, TokMeta};
use std::collections::BTreeMap;
use vstd::prelude::*;
use vstd::std_specs::btree::increasing_seq;
use vstd::std_specs::cmp::OrdSpec;
use vstd::std_specs::iter::IteratorSpec;

verus! {

/// Where the scan of the tokens stands: the spaces that were seen last at
/// the beginning of a line, whether the next token begins a line, and the
/// changes recorded so far.
pub struct Walk {
    pub prev: int,
    pub fresh: bool,
    pub deltas: Seq<int>,
}

impl Walk {
    /// The scan before the first token.
    pub open spec fn start() -> Walk {
        Walk { prev: 0, fresh: true, deltas: Seq::empty() }
    }

    /// The scan after a token of kind `tok` that spans `span` characters:
    /// spaces at the beginning of a line are compared with those seen last,
    /// and a difference is recorded.
    pub open spec fn step(self, tok: Tok, span: int) -> Walk {
        let changed = self.fresh && tok == Tok::Space && span != self.prev;
        Walk {
            prev: if changed {
                span
            } else {
                self.prev
            },
            fresh: tok == Tok::LineEnd,
            deltas: if changed {
                self.deltas.push(span - self.prev)
            } else {
                self.deltas
            },
        }
    }
}

/// The scan after the first `n` tokens.
pub open spec fn walked(toks: Seq<Tok>, metas: Seq<TokMeta>, n: int) -> Walk
    decreases n,
{
    if n <= 0 {
        Walk::start()
    } else {
        walked(toks, metas, n - 1).step(toks[n - 1], metas[n - 1].span as int)
    }
}

/// The number of tokens that have their place given.
pub open spec fn paired(toks: Seq<Tok>, metas: Seq<TokMeta>) -> int {
    if toks.len() <= metas.len() {
        toks.len() as int
    } else {
        metas.len() as int
    }
}

/// The changes of indentation from line to line, in their order.
pub open spec fn deltas(toks: Seq<Tok>, metas: Seq<TokMeta>) -> Seq<int> {
    walked(toks, metas, paired(toks, metas)).deltas
}

/// The size of a change.
pub open spec fn magnitude(delta: int) -> int {
    if delta < 0 {
        -delta
    } else {
        delta
    }
}

/// Does a change fit a width? Going deeper fits where it is one level, or
/// two; going back fits where it is a number of whole levels.
pub open spec fn compatible(delta: int, width: int) -> bool {
    if delta > 0 {
        delta == width || delta == 2 * width
    } else {
        width != 0 && (-delta) % width == 0
    }
}

/// The vote of a change on a width.
pub open spec fn vote(delta: int, width: int) -> int {
    if compatible(delta, width) {
        1
    } else {
        -1
    }
}

/// The votes of all changes on a width.
pub open spec fn score(deltas: Seq<int>, width: int) -> int
    decreases deltas.len(),
{
    if deltas.len() == 0 {
        0
    } else {
        score(deltas.drop_last(), width) + vote(deltas.last(), width)
    }
}

/// Is `width` the estimate that these changes give? Without a change it is
/// 0. Else it is the size of a change that no other outvotes; among those,
/// of the greatest change, where going deeper counts as greater than going
/// back.
pub open spec fn is_estimate(deltas: Seq<int>, width: int) -> bool {
    if deltas.len() == 0 {
        width == 0
    } else {
        exists|k: int|
            {
                &&& 0 <= k < deltas.len()
                &&& width == magnitude(#[trigger] deltas[k])
                &&& forall|j: int|
                    0 <= j < deltas.len() ==> {
                        let other = score(deltas, magnitude(#[trigger] deltas[j]));
                        other < score(deltas, width) || (other == score(deltas, width) && deltas[j]
                            <= deltas[k])
                    }
            }
    }
}

/// The changes give one estimate.
pub proof fn law_one_estimate(deltas: Seq<int>, first: int, second: int)
    requires
        is_estimate(deltas, first),
        is_estimate(deltas, second),
    ensures
        first == second,
{
    if deltas.len() > 0 {
        let k = choose|k: int|
            {
                &&& 0 <= k < deltas.len()
                &&& first == magnitude(#[trigger] deltas[k])
                &&& forall|j: int|
                    0 <= j < deltas.len() ==> {
                        let other = score(deltas, magnitude(#[trigger] deltas[j]));
                        other < score(deltas, first) || (other == score(deltas, first) && deltas[j]
                            <= deltas[k])
                    }
            };
        let l = choose|l: int|
            {
                &&& 0 <= l < deltas.len()
                &&& second == magnitude(#[trigger] deltas[l])
                &&& forall|j: int|
                    0 <= j < deltas.len() ==> {
                        let other = score(deltas, magnitude(#[trigger] deltas[j]));
                        other < score(deltas, second) || (other == score(deltas, second)
                            && deltas[j] <= deltas[l])
                    }
            };
        assert(deltas[k] <= deltas[l] || score(deltas, magnitude(deltas[k])) < score(
            deltas,
            second,
        ));
        assert(deltas[l] <= deltas[k] || score(deltas, magnitude(deltas[l])) < score(
            deltas,
            first,
        ));
    }
}

/// How often `delta` occurs among the changes.
pub open spec fn occurrences(deltas: Seq<int>, delta: int) -> nat
    decreases deltas.len(),
{
    if deltas.len() == 0 {
        0
    } else if deltas.last() == delta {
        occurrences(deltas.drop_last(), delta) + 1
    } else {
        occurrences(deltas.drop_last(), delta)
    }
}

/// The votes on a width of the changes that are among `keys`, each key
/// voting as often as it occurs.
pub open spec fn tally(keys: Seq<int>, deltas: Seq<int>, width: int) -> int
    decreases keys.len(),
{
    if keys.len() == 0 {
        0
    } else if compatible(keys.last(), width) {
        tally(keys.drop_last(), deltas, width) + occurrences(deltas, keys.last())
    } else {
        tally(keys.drop_last(), deltas, width) - occurrences(deltas, keys.last())
    }
}

proof fn lemma_occurrences(deltas: Seq<int>, delta: int)
    ensures
        occurrences(deltas, delta) <= deltas.len(),
        occurrences(deltas, delta) > 0 <==> deltas.contains(delta),
    decreases deltas.len(),
{
    if deltas.len() > 0 {
        let rest = deltas.drop_last();
        lemma_occurrences(rest, delta);
        if deltas.last() == delta {
            assert(deltas[deltas.len() - 1] == delta);
        } else if rest.contains(delta) {
            let i = choose|i: int| 0 <= i < rest.len() && rest[i] == delta;
            assert(deltas[i] == delta);
        } else if deltas.contains(delta) {
            let i = choose|i: int| 0 <= i < deltas.len() && deltas[i] == delta;
            assert(rest[i] == delta);
        }
    }
}

/// One more change: the tally of keys that do not hold it stays, and the
/// tally of keys that hold it once gets its vote.
proof fn lemma_tally_push(keys: Seq<int>, deltas: Seq<int>, delta: int, width: int)
    requires
        keys.no_duplicates(),
    ensures
        tally(keys, deltas.push(delta), width) == tally(keys, deltas, width) + if keys.contains(
            delta,
        ) {
            vote(delta, width)
        } else {
            0
        },
    decreases keys.len(),
{
    assert(deltas.push(delta).drop_last() =~= deltas);
    if keys.len() > 0 {
        let rest = keys.drop_last();
        lemma_tally_push(rest, deltas, delta, width);
        if keys.last() == delta {
            assert(keys[keys.len() - 1] == delta);
            if rest.contains(delta) {
                let i = choose|i: int| 0 <= i < rest.len() && rest[i] == delta;
                assert(keys[i] == delta);
            }
        } else if rest.contains(delta) {
            let i = choose|i: int| 0 <= i < rest.len() && rest[i] == delta;
            assert(keys[i] == delta);
        } else if keys.contains(delta) {
            let i = choose|i: int| 0 <= i < keys.len() && keys[i] == delta;
            assert(rest[i] == delta);
        }
    }
}

/// A tally is within the number of changes, and the tally of keys that hold
/// every change is the score.
proof fn lemma_tally(keys: Seq<int>, deltas: Seq<int>, width: int)
    requires
        keys.no_duplicates(),
    ensures
        -deltas.len() <= tally(keys, deltas, width) <= deltas.len(),
        (forall|i: int| 0 <= i < deltas.len() ==> keys.contains(#[trigger] deltas[i])) ==> tally(
            keys,
            deltas,
            width,
        ) == score(deltas, width),
    decreases deltas.len(),
{
    if deltas.len() == 0 {
        assert(deltas =~= Seq::empty());
        lemma_tally_empty(keys, width);
    } else {
        let rest = deltas.drop_last();
        assert(rest.push(deltas.last()) =~= deltas);
        lemma_tally(keys, rest, width);
        lemma_tally_push(keys, rest, deltas.last(), width);
        assert(tally(keys, deltas, width) == tally(keys, rest, width) + if keys.contains(
            deltas.last(),
        ) {
            vote(deltas.last(), width)
        } else {
            0
        });
        if forall|i: int| 0 <= i < deltas.len() ==> keys.contains(#[trigger] deltas[i]) {
            assert forall|i: int| 0 <= i < rest.len() implies keys.contains(#[trigger] rest[i]) by {
                assert(rest[i] == deltas[i]);
            }
            assert(keys.contains(deltas[deltas.len() - 1]));
        }
    }
}

proof fn lemma_tally_empty(keys: Seq<int>, width: int)
    ensures
        tally(keys, Seq::empty(), width) == 0,
    decreases keys.len(),
{
    if keys.len() > 0 {
        lemma_tally_empty(keys.drop_last(), width);
    }
}

/// Keys in the order of a map rise.
proof fn lemma_rising(keys: Seq<i128>)
    requires
        increasing_seq(keys),
    ensures
        forall|i: int, j: int| 0 <= i < j < keys.len() ==> keys[i] < keys[j],
{
    broadcast use vstd::std_specs::btree::group_btree_axioms;
    broadcast use vstd::laws_cmp::group_laws_cmp;

    assert forall|i: int, j: int| 0 <= i < j < keys.len() implies keys[i] < keys[j] by {
        assert(keys[i].cmp_spec(&keys[j]) is Less);
    }
}

/// The keys of `map` with their values, by rising key.
fn entries(map: &BTreeMap<i128, usize>) -> (r: Vec<(i128, usize)>)
    ensures
        forall|i: int|
            0 <= i < r@.len() ==> map@.contains_key((#[trigger] r@[i]).0) && map@[r@[i].0]
                == r@[i].1,
        forall|k: i128|
            map@.contains_key(k) ==> exists|i: int| 0 <= i < r@.len() && (#[trigger] r@[i]).0 == k,
        forall|i: int, j: int|
            0 <= i < j < r@.len() ==> (#[trigger] r@[i]).0 < (#[trigger] r@[j]).0,
{
    broadcast use vstd::std_specs::btree::group_btree_axioms;
    broadcast use vstd::laws_cmp::group_laws_cmp;

    let mut out: Vec<(i128, usize)> = Vec::new();
    let iter = map.iter();
    let ghost rem = iter.remaining();
    let ghost keys = rem.map_values(|kv: (&i128, &usize)| *kv.0);
    proof {
        lemma_rising(keys);
    }
    for pair in it: iter
        invariant
            it.seq() == rem,
            out@.len() == it.index(),
            forall|i: int|
                0 <= i < out@.len() ==> (#[trigger] out@[i]).0 == *rem[i].0 && out@[i].1
                    == *rem[i].1,
    {
        out.push((*pair.0, *pair.1));
    }
    proof {
        assert forall|k: i128| map@.contains_key(k) implies exists|i: int|
            0 <= i < out@.len() && (#[trigger] out@[i]).0 == k by {
            assert(rem.contains((&k, &map@[k])));
            let i = choose|i: int| 0 <= i < rem.len() && rem[i] == (&k, &map@[k]);
            assert(out@[i].0 == k);
        }
        assert forall|i: int, j: int| 0 <= i < j < out@.len() implies (#[trigger] out@[i]).0 < (
        #[trigger] out@[j]).0 by {
            assert(keys[i] == out@[i].0);
            assert(keys[j] == out@[j].0);
        }
    }
    out
}

/// Counts `key` once more, and returns how often it is counted now.
fn bump(map: &mut BTreeMap<i128, usize>, key: i128) -> (count: usize)
    requires
        old(map)@.contains_key(key) ==> old(map)@[key] < usize::MAX,
    ensures
        count == if old(map)@.contains_key(key) {
            old(map)@[key] + 1
        } else {
            1
        },
        final(map)@ == old(map)@.insert(key, count),
{
    broadcast use vstd::std_specs::btree::group_btree_axioms;
    broadcast use vstd::laws_cmp::group_laws_cmp;

    let count = match map.get(&key) {
        Some(count) => *count + 1,
        None => 1,
    };
    map.insert(key, count);
    count
}


/// Does `map` hold each change with the number of times that it occurs?
/// No change is 0, and each is the difference of two machine numbers.
pub open spec fn counted(map: Map<i128, usize>, deltas: Seq<int>) -> bool {
    &&& deltas.len() <= usize::MAX
    &&& forall|d: i128| #[trigger] map.contains_key(d) <==> occurrences(deltas, d as int) > 0
    &&& forall|d: i128| #[trigger] map.contains_key(d) ==> map[d] == occurrences(deltas, d as int)
    &&& forall|i: int|
        0 <= i < deltas.len() ==> (#[trigger] deltas[i]) != 0 && -usize::MAX <= deltas[i]
            <= usize::MAX
}

/// One more change, counted once more.
proof fn lemma_counted_push(map: Map<i128, usize>, deltas: Seq<int>, delta: i128, count: usize)
    requires
        counted(map, deltas),
        deltas.len() < usize::MAX,
        delta != 0,
        -usize::MAX <= delta <= usize::MAX,
        count == if map.contains_key(delta) {
            map[delta] + 1
        } else {
            1
        },
    ensures
        counted(map.insert(delta, count), deltas.push(delta as int)),
{
    let after = deltas.push(delta as int);
    let grown = map.insert(delta, count);
    assert(after.drop_last() =~= deltas);
    assert forall|d: i128| #[trigger] grown.contains_key(d) <==> occurrences(after, d as int)
        > 0 by {
        assert(map.contains_key(d) <==> occurrences(deltas, d as int) > 0);
    }
    assert forall|d: i128| #[trigger] grown.contains_key(d) implies grown[d] == occurrences(
        after,
        d as int,
    ) by {
        assert(map.contains_key(d) <==> occurrences(deltas, d as int) > 0);
        if map.contains_key(d) {
            assert(map[d] == occurrences(deltas, d as int));
        }
    }
}

/// Counts the changes of indentation, and estimates the width of a level
/// from them.
pub struct IndentationEstimator {
    deltas: BTreeMap<i128, usize>,
    seen: Ghost<Seq<int>>,
}

impl View for IndentationEstimator {
    type V = Seq<int>;

    /// The changes counted so far, in their order.
    closed spec fn view(&self) -> Seq<int> {
        self.seen@
    }
}

/// Is `delta` among the keys of `entries`?
pub open spec fn listed(entries: Seq<(i128, usize)>, delta: int) -> bool {
    exists|j: int| 0 <= j < entries.len() && (#[trigger] entries[j]).0 == delta
}

/// The votes on the width `target` of the changes that `entries` counts.
fn votes(entries: &Vec<(i128, usize)>, target: i128, Ghost(seen): Ghost<Seq<int>>) -> (r: i128)
    requires
        0 < target <= usize::MAX,
        seen.len() <= usize::MAX,
        forall|i: int, j: int|
            0 <= i < j < entries@.len() ==> (#[trigger] entries@[i]).0 < (#[trigger] entries@[j]).0,
        forall|i: int|
            0 <= i < entries@.len() ==> (#[trigger] entries@[i]).1 == occurrences(
                seen,
                entries@[i].0 as int,
            ) && -usize::MAX <= entries@[i].0 <= usize::MAX,
        forall|i: int| 0 <= i < seen.len() ==> listed(entries@, #[trigger] seen[i]),
    ensures
        r == score(seen, target as int),
{
    let ghost keys = Seq::new(entries@.len(), |i: int| entries@[i].0 as int);
    let n = entries.len();
    let mut matches: i128 = 0;
    let mut i: usize = 0;
    proof {
        assert(keys.take(0) =~= Seq::empty());
    }
    while i < n
        invariant
            n == entries@.len(),
            i <= n,
            0 < target <= usize::MAX,
            seen.len() <= usize::MAX,
            keys == Seq::new(entries@.len(), |i: int| entries@[i].0 as int),
            forall|i: int, j: int|
                0 <= i < j < entries@.len() ==> (#[trigger] entries@[i]).0 < (
                #[trigger] entries@[j]).0,
            forall|i: int|
                0 <= i < entries@.len() ==> (#[trigger] entries@[i]).1 == occurrences(
                    seen,
                    entries@[i].0 as int,
                ) && -usize::MAX <= entries@[i].0 <= usize::MAX,
            matches == tally(keys.take(i as int), seen, target as int),
            -seen.len() <= matches <= seen.len(),
        decreases n - i,
    {
        let (delta, count) = entries[i];
        proof {
            let more = keys.take(i + 1);
            assert(more.drop_last() =~= keys.take(i as int));
            assert(more.last() == delta);
            assert(more.no_duplicates()) by {
                assert forall|a: int, b: int| 0 <= a < more.len() && 0 <= b < more.len() && a
                    != b implies more[a] != more[b] by {
                    if a < b {
                        assert(entries@[a].0 < entries@[b].0);
                    } else {
                        assert(entries@[b].0 < entries@[a].0);
                    }
                }
            }
            lemma_tally(more, seen, target as int);
        }
        let matched = if delta > 0 {
            delta == target || delta == 2 * target
        } else {
            (-delta) % target == 0
        };
        if matched {
            matches += count as i128;
        } else {
            matches -= count as i128;
        }
        i += 1;
    }
    proof {
        assert(keys.take(n as int) =~= keys);
        assert(keys.no_duplicates()) by {
            assert forall|a: int, b: int| 0 <= a < keys.len() && 0 <= b < keys.len() && a
                != b implies keys[a] != keys[b] by {
                if a < b {
                    assert(entries@[a].0 < entries@[b].0);
                } else {
                    assert(entries@[b].0 < entries@[a].0);
                }
            }
        }
        assert forall|i: int| 0 <= i < seen.len() implies keys.contains(#[trigger] seen[i]) by {
            let j = choose|j: int|
                0 <= j < entries@.len() && (#[trigger] entries@[j]).0 == seen[i];
            assert(keys[j] == seen[i]);
        }
        lemma_tally(keys, seen, target as int);
    }
    matches
}

impl IndentationEstimator {
    #[verifier::type_invariant]
    spec fn sound(self) -> bool {
        counted(self.deltas@, self.seen@)
    }

    /// An estimator that has counted nothing.
    pub fn new() -> (r: Self)
        ensures
            r@ == Seq::<int>::empty(),
    {
        IndentationEstimator { deltas: BTreeMap::new(), seen: Ghost(Seq::empty()) }
    }

    /// Counts the changes of indentation in the tokens. Of two slices of
    /// different lengths, the longer one's rest is left out.
    pub fn count(self, toks: &[Tok], toks_meta: &[TokMeta]) -> (r: Self)
        requires
            self@.len() + paired(toks@, toks_meta@) <= usize::MAX,
        ensures
            r@ == self@ + deltas(toks@, toks_meta@),
            r@.len() <= self@.len() + paired(toks@, toks_meta@),
    {
        proof {
            use_type_invariant(&self);
        }
        let ghost base = self@;
        let IndentationEstimator { deltas, seen: counted_so_far } = self;
        let mut map = deltas;
        let ghost mut seen = counted_so_far@;
        let n = if toks.len() <= toks_meta.len() {
            toks.len()
        } else {
            toks_meta.len()
        };
        let mut prev_space_span: usize = 0;
        let mut after_new_line = true;
        let mut i: usize = 0;
        proof {
            assert(base + Walk::start().deltas =~= base);
        }
        while i < n
            invariant
                n == paired(toks@, toks_meta@),
                i <= n,
                base.len() + n <= usize::MAX,
                prev_space_span == walked(toks@, toks_meta@, i as int).prev,
                after_new_line == walked(toks@, toks_meta@, i as int).fresh,
                seen == base + walked(toks@, toks_meta@, i as int).deltas,
                seen.len() <= base.len() + i,
                counted(map@, seen),
            decreases n - i,
        {
            let tok = toks[i];
            let span = toks_meta[i].span;
            let ghost before = walked(toks@, toks_meta@, i as int);
            if after_new_line && tok == Tok::Space {
                let delta: i128 = span as i128 - prev_space_span as i128;
                if delta != 0 {
                    proof {
                        lemma_occurrences(seen, delta as int);
                    }
                    let ghost map_before = map@;
                    let count = bump(&mut map, delta);
                    proof {
                        lemma_counted_push(map_before, seen, delta, count);
                        assert(base + before.deltas.push(delta as int) =~= (base
                            + before.deltas).push(delta as int));
                        seen = seen.push(delta as int);
                    }
                    prev_space_span = span;
                }
            }
            after_new_line = tok == Tok::LineEnd;
            i += 1;
        }
        IndentationEstimator { deltas: map, seen: Ghost(seen) }
    }

    /// The estimate of the width of one level: 0 where nothing was counted.
    pub fn estimate(&self) -> (r: usize)
        ensures
            is_estimate(self@, r as int),
    {
        proof {
            use_type_invariant(self);
        }
        let ghost seen = self.seen@;
        let entries = entries(&self.deltas);
        let n = entries.len();
        proof {
            assert forall|i: int| 0 <= i < entries@.len() implies (#[trigger] entries@[i]).1
                == occurrences(seen, entries@[i].0 as int) && -usize::MAX <= entries@[i].0
                <= usize::MAX && entries@[i].0 != 0 by {
                let d = entries@[i].0;
                assert(self.deltas@.contains_key(d));
                lemma_occurrences(seen, d as int);
                let k = choose|k: int| 0 <= k < seen.len() && seen[k] == d as int;
                assert(seen[k] != 0);
            }
            assert forall|i: int| 0 <= i < seen.len() implies listed(
                entries@,
                #[trigger] seen[i],
            ) by {
                let d = seen[i] as i128;
                lemma_occurrences(seen, seen[i]);
                assert(self.deltas@.contains_key(d));
            }
        }
        let mut target_max: i128 = 0;
        let mut matches_max: i128 = i128::MIN;
        let ghost mut best: int = n as int;
        let mut t: usize = n;
        while t > 0
            invariant
                n == entries@.len(),
                t <= n,
                seen.len() <= usize::MAX,
                forall|i: int, j: int|
                    0 <= i < j < entries@.len() ==> (#[trigger] entries@[i]).0 < (
                    #[trigger] entries@[j]).0,
                forall|i: int|
                    0 <= i < entries@.len() ==> (#[trigger] entries@[i]).1 == occurrences(
                        seen,
                        entries@[i].0 as int,
                    ) && -usize::MAX <= entries@[i].0 <= usize::MAX && entries@[i].0 != 0,
                forall|i: int| 0 <= i < seen.len() ==> listed(entries@, #[trigger] seen[i]),
                t == n ==> target_max == 0 && matches_max == i128::MIN,
                t < n ==> {
                    &&& t <= best < n
                    &&& target_max == magnitude(entries@[best].0 as int)
                    &&& matches_max == score(seen, target_max as int)
                    &&& forall|j: int|
                        t <= j < n ==> {
                            let other = score(seen, magnitude((#[trigger] entries@[j]).0 as int));
                            other < matches_max || (other == matches_max && entries@[j].0
                                <= entries@[best].0)
                        }
                },
                -seen.len() <= matches_max || t == n,
                0 <= target_max <= usize::MAX,
            decreases t,
        {
            t -= 1;
            let key = entries[t].0;
            let target = if key < 0 {
                -key
            } else {
                key
            };
            let matches = votes(&entries, target, Ghost(seen));
            proof {
                lemma_score_bounded(seen, target as int);
            }
            if matches > matches_max {
                target_max = target;
                matches_max = matches;
                proof {
                    best = t as int;
                }
            }
        }
        proof {
            if seen.len() == 0 {
                if n > 0 {
                    lemma_occurrences(seen, entries@[0].0 as int);
                }
            } else {
                let j0 = choose|j: int|
                    0 <= j < entries@.len() && (#[trigger] entries@[j]).0 == seen[0];
                lemma_occurrences(seen, entries@[best].0 as int);
                let k = choose|k: int| 0 <= k < seen.len() && seen[k] == entries@[best].0 as int;
                assert forall|j: int| 0 <= j < seen.len() implies {
                    let other = score(seen, magnitude(#[trigger] seen[j]));
                    other < score(seen, target_max as int) || (other == score(
                        seen,
                        target_max as int,
                    ) && seen[j] <= seen[k])
                } by {
                    let m = choose|m: int|
                        0 <= m < entries@.len() && (#[trigger] entries@[m]).0 == seen[j];
                    assert(entries@[m].0 == seen[j]);
                }
                assert(target_max == magnitude(seen[k]));
            }
        }
        target_max as usize
    }
}

/// A score is within the number of changes.
proof fn lemma_score_bounded(deltas: Seq<int>, width: int)
    ensures
        -deltas.len() <= score(deltas, width) <= deltas.len(),
    decreases deltas.len(),
{
    if deltas.len() > 0 {
        lemma_score_bounded(deltas.drop_last(), width);
    }
}

/// The estimate of the width of one level of indentation, in spaces, from
/// the tokens and where they stand: 0 where no line is indented.
pub fn estimate_indentation(toks: &[Tok], toks_meta: &[TokMeta]) -> (r: usize)
    ensures
        is_estimate(deltas(toks@, toks_meta@), r as int),
{
    // Read for its bound: there are no more tokens than a `usize` counts.
    let _ = toks.len();
    let estimator = IndentationEstimator::new().count(toks, toks_meta);
    proof {
        assert(Seq::<int>::empty() + deltas(toks@, toks_meta@) =~= deltas(toks@, toks_meta@));
    }
    estimator.estimate()
}

} // verus!

