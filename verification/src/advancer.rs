//! A backtracking cursor over a slice.
//!
//! The cursor keeps two positions: the committed one, up to which the items
//! are taken for good, and the speculative one, which the matching
//! operations move forward and a failed match moves back.
use vstd::prelude::*;

verus! {

/// Decides which items a matching operation may step over.
///
/// `accepts` says which items those are, and `matches` computes it.
pub trait Matcher<T> {
    /// The items that this matcher accepts.
    spec fn accepts(&self, item: &T) -> bool;

    /// Does this matcher accept `item`?
    fn matches(&self, item: &T) -> (r: bool)
        ensures
            r == self.accepts(item),
    ;
}

/// A character accepts itself.
impl Matcher<char> for char {
    open spec fn accepts(&self, item: &char) -> bool {
        *self == *item
    }

    fn matches(&self, item: &char) -> (r: bool) {
        *self == *item
    }
}

/// A slice of characters accepts each character that it holds.
impl<'a> Matcher<char> for &'a [char] {
    open spec fn accepts(&self, item: &char) -> bool {
        (*self)@.contains(*item)
    }

    fn matches(&self, item: &char) -> (r: bool) {
        let mut i: usize = 0;
        while i < self.len()
            invariant
                i <= (*self)@.len(),
                forall|k: int| 0 <= k < i ==> (*self)@[k] != *item,
            decreases (*self)@.len() - i,
        {
            if self[i] == *item {
                return true;
            }
            i += 1;
        }
        false
    }
}

/// What a cursor is: the items, and its two positions in them.
pub struct Cursor<T> {
    pub items: Seq<T>,
    pub start: int,
    pub peek: int,
}

impl<T> Cursor<T> {
    /// Is there an item at the speculative position, and does `m` accept it?
    pub open spec fn hit<M: Matcher<T>>(self, m: M) -> bool {
        self.peek < self.items.len() && m.accepts(&self.items[self.peek])
    }

    /// The same cursor with its speculative position at `peek`.
    pub open spec fn at(self, peek: int) -> Self {
        Cursor { peek, ..self }
    }
}

/// The end of the longest run of items from `from` on that `m` accepts.
pub open spec fn run_end<T, M: Matcher<T>>(items: Seq<T>, from: int, m: M) -> int
    decreases items.len() - from,
{
    if 0 <= from < items.len() && m.accepts(&items[from]) {
        run_end(items, from + 1, m)
    } else {
        from
    }
}

/// `run_end` is the one position that ends a run: every item before it is
/// accepted, and the item at it, if there is one, is not.
pub proof fn lemma_run_end<T, M: Matcher<T>>(items: Seq<T>, from: int, m: M)
    requires
        0 <= from <= items.len(),
    ensures
        from <= run_end(items, from, m) <= items.len(),
        forall|i: int| from <= i < run_end(items, from, m) ==> m.accepts(&#[trigger] items[i]),
        run_end(items, from, m) < items.len() ==> !m.accepts(
            &items[run_end(items, from, m)],
        ),
    decreases items.len() - from,
{
    if from < items.len() && m.accepts(&items[from]) {
        lemma_run_end(items, from + 1, m);
    }
}

/// A position that ends a run from `from` is `run_end`.
pub proof fn law_run_end<T, M: Matcher<T>>(items: Seq<T>, from: int, m: M, end: int)
    requires
        0 <= from <= end <= items.len(),
        forall|i: int| from <= i < end ==> m.accepts(&#[trigger] items[i]),
        end < items.len() ==> !m.accepts(&items[end]),
    ensures
        run_end(items, from, m) == end,
    decreases end - from,
{
    if from < end {
        law_run_end(items, from + 1, m, end);
    }
}

/// A cursor over a slice, with a committed and a speculative position: the
/// committed one is never after the speculative one, and both lie within
/// the slice.
pub struct Advancer<'s, T> {
    slice: &'s [T],
    start: usize,
    peek: usize,
}

impl<'s, T> View for Advancer<'s, T> {
    type V = Cursor<T>;

    closed spec fn view(&self) -> Cursor<T> {
        Cursor { items: self.slice@, start: self.start as int, peek: self.peek as int }
    }
}

impl<'s, T> Clone for Advancer<'s, T> {
    fn clone(&self) -> (r: Self)
        ensures
            r@ == self@,
    {
        proof {
            use_type_invariant(self);
        }
        Advancer { slice: self.slice, start: self.start, peek: self.peek }
    }
}

impl<'s, T> Advancer<'s, T> {
    #[verifier::type_invariant]
    spec fn ordered(self) -> bool {
        self.start <= self.peek <= self.slice@.len()
    }

    /// A cursor at the beginning of `slice`.
    pub fn new(slice: &'s [T]) -> (r: Self)
        ensures
            r@ == (Cursor { items: slice@, start: 0, peek: 0 }),
    {
        Advancer { slice, start: 0, peek: 0 }
    }

    /// The speculative position.
    pub fn pos(&self) -> (r: usize)
        ensures
            r == self@.peek,
            self@.start <= r <= self@.items.len(),
    {
        proof {
            use_type_invariant(self);
        }
        self.peek
    }

    /// The items between the committed and the speculative position.
    pub fn current(&self) -> (r: &'s [T])
        ensures
            0 <= self@.start <= self@.peek <= self@.items.len(),
            r@ == self@.items.subrange(self@.start, self@.peek),
    {
        proof {
            use_type_invariant(self);
        }
        vstd::slice::slice_subrange(self.slice, self.start, self.peek)
    }

    /// Moves both positions forward to `pos`.
    pub fn advance(&mut self, pos: usize)
        requires
            old(self)@.peek < pos <= old(self)@.items.len(),
        ensures
            final(self)@ == (Cursor { items: old(self)@.items, start: pos as int, peek: pos as int }),
    {
        proof {
            use_type_invariant(&*self);
        }
        self.peek = pos;
        self.start = pos;
    }

    /// Gives up what was matched since the last commit.
    pub fn reset(&mut self)
        ensures
            final(self)@ == old(self)@.at(old(self)@.start),
    {
        proof {
            use_type_invariant(&*self);
        }
        self.peek = self.start;
    }

    /// Commits what was matched, and returns the number of items advanced:
    /// those that were pending.
    pub fn consume(&mut self) -> (r: usize)
        requires
            old(self)@.peek != old(self)@.start,
        ensures
            r == old(self)@.peek - old(self)@.start,
            r >= 1,
            old(self)@.peek <= old(self)@.items.len(),
            final(self)@ == (Cursor {
                items: old(self)@.items,
                start: old(self)@.peek,
                peek: old(self)@.peek,
            }),
    {
        proof {
            use_type_invariant(&*self);
        }
        let advanced = self.peek - self.start;
        self.start = self.peek;
        advanced
    }

    /// Is everything taken, with nothing pending?
    pub fn completed(&self) -> (r: bool)
        ensures
            r == (self@.start == self@.peek && self@.peek == self@.items.len()),
    {
        self.start == self.peek && self.peek == self.slice.len()
    }

    /// Is the speculative position at the end of the slice?
    pub fn cannot_peek(&self) -> (r: bool)
        ensures
            r == (self@.peek == self@.items.len()),
    {
        self.peek == self.slice.len()
    }

    /// Steps over one item that `m` accepts and returns it; otherwise gives up
    /// what was matched since the last commit.
    pub fn one<M: Matcher<T>>(&mut self, m: M) -> (r: Option<&'s T>)
        ensures
            match r {
                Some(item) => {
                    &&& old(self)@.hit(m)
                    &&& *item == old(self)@.items[old(self)@.peek]
                    &&& final(self)@ == old(self)@.at(old(self)@.peek + 1)
                },
                None => {
                    &&& !old(self)@.hit(m)
                    &&& final(self)@ == old(self)@.at(old(self)@.start)
                },
            },
    {
        proof {
            use_type_invariant(&*self);
        }
        if self.peek < self.slice.len() {
            let item = &self.slice[self.peek];
            if m.matches(item) {
                self.peek += 1;
                return Some(item);
            }
        }
        self.reset();
        None
    }

    /// Steps over one item if `m` accepts it.
    pub fn zero_or_one<M: Matcher<T>>(&mut self, m: M)
        ensures
            final(self)@ == old(self)@.at(
                if old(self)@.hit(m) {
                    old(self)@.peek + 1
                } else {
                    old(self)@.peek
                },
            ),
    {
        proof {
            use_type_invariant(&*self);
        }
        if self.peek < self.slice.len() {
            if m.matches(&self.slice[self.peek]) {
                self.peek += 1;
            }
        }
    }

    /// The end of the run of accepted items that begins at the speculative
    /// position.
    fn scan<M: Matcher<T>>(&self, m: &M) -> (end: usize)
        ensures
            self@.peek <= end <= self@.items.len(),
            end == run_end(self@.items, self@.peek, *m),
    {
        proof {
            use_type_invariant(self);
        }
        let mut end: usize = self.peek;
        while end < self.slice.len() && m.matches(&self.slice[end])
            invariant
                self.peek <= end <= self.slice@.len(),
                run_end(self.slice@, self.peek as int, *m) == run_end(self.slice@, end as int, *m),
            decreases self.slice@.len() - end,
        {
            end += 1;
        }
        end
    }

    /// Steps over the longest run of items that `m` accepts; if the run is
    /// empty, gives up what was matched since the last commit.
    pub fn one_or_more<M: Matcher<T>>(&mut self, m: M) -> (r: Option<()>)
        ensures
            r is Some == old(self)@.hit(m),
            final(self)@ == old(self)@.at(
                if old(self)@.hit(m) {
                    run_end(old(self)@.items, old(self)@.peek, m)
                } else {
                    old(self)@.start
                },
            ),
    {
        proof {
            use_type_invariant(&*self);
            if self@.peek < self@.items.len() {
                lemma_run_end(self@.items, self@.peek + 1, m);
            }
        }
        let end = self.scan(&m);
        if end > self.peek {
            self.peek = end;
            Some(())
        } else {
            self.reset();
            None
        }
    }

    /// Steps over the longest run of items that `m` accepts.
    pub fn zero_or_more<M: Matcher<T>>(&mut self, m: M)
        ensures
            final(self)@ == old(self)@.at(run_end(old(self)@.items, old(self)@.peek, m)),
    {
        proof {
            use_type_invariant(&*self);
        }
        let end = self.scan(&m);
        if end != self.peek {
            self.peek = end;
        }
    }
}

} // verus!
