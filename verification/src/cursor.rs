use vstd::prelude::*;
use std::collections::VecDeque;

verus! {

/// A double-ended cursor over a finite sequence of items.
///
/// `rest` is the sequence of items the cursor still yields: `next` takes from
/// its front, `next_back` from its back.
pub trait Cursor: Sized {
    type Item;

    spec fn rest(&self) -> Seq<Self::Item>;

    /// The cursor's own well-formedness, which its steps keep.
    spec fn valid(&self) -> bool;

    fn next(&mut self) -> (r: Option<Self::Item>)
        requires
            old(self).valid(),
        ensures
            final(self).valid(),
            old(self).rest().len() == 0 ==> r is None && final(self).rest() == old(self).rest(),
            old(self).rest().len() > 0 ==> r == Some(old(self).rest()[0]) && final(self).rest()
                == old(self).rest().drop_first(),
    ;

    fn next_back(&mut self) -> (r: Option<Self::Item>)
        requires
            old(self).valid(),
        ensures
            final(self).valid(),
            old(self).rest().len() == 0 ==> r is None && final(self).rest() == old(self).rest(),
            old(self).rest().len() > 0 ==> r == Some(old(self).rest().last()) && final(self).rest()
                == old(self).rest().drop_last(),
    ;

    /// Consumes the cursor and counts the items it would yield.
    fn count(self) -> (n: usize)
        requires
            self.valid(),
            self.rest().len() <= usize::MAX,
        ensures
            n == self.rest().len(),
    {
        let mut c = self;
        let ghost all = c.rest();
        let mut n: usize = 0;
        loop
            invariant
                n + c.rest().len() == all.len(),
                c.valid(),
                all == self.rest(),
                all.len() <= usize::MAX,
            decreases c.rest().len(),
        {
            match c.next() {
                Some(_) => {
                    n = n + 1;
                },
                None => {
                    return n;
                },
            }
        }
    }

    /// Consumes the cursor from the front, collecting its items in order.
    fn collect_vec(self) -> (v: Vec<Self::Item>)
        requires
            self.valid(),
        ensures
            v@ == self.rest(),
    {
        let mut c = self;
        let ghost all = c.rest();
        let mut v: Vec<Self::Item> = Vec::new();
        loop
            invariant
                v@ + c.rest() == all,
                c.valid(),
                all == self.rest(),
            decreases c.rest().len(),
        {
            match c.next() {
                Some(x) => {
                    v.push(x);
                    assert(v@ + c.rest() =~= all);
                },
                None => {
                    assert(v@ =~= all);
                    return v;
                },
            }
        }
    }

    /// Consumes the cursor from the back, collecting its items in reverse order.
    fn collect_rev(self) -> (v: Vec<Self::Item>)
        requires
            self.valid(),
        ensures
            v@ == self.rest().reverse(),
    {
        let mut c = self;
        let ghost all = c.rest();
        let mut v: Vec<Self::Item> = Vec::new();
        loop
            invariant
                c.rest() + v@.reverse() == all,
                c.valid(),
                all == self.rest(),
            decreases c.rest().len(),
        {
            match c.next_back() {
                Some(x) => {
                    let ghost before = v@;
                    v.push(x);
                    assert(v@.reverse() =~= seq![x] + before.reverse());
                    assert(c.rest() + v@.reverse() =~= all);
                },
                None => {
                    assert(v@.reverse().reverse() =~= v@);
                    assert(v@.reverse() =~= all);
                    return v;
                },
            }
        }
    }
}

/// Taking items from both ends of a cursor: `front` are the items `next` has
/// given, in order, `rest` what the cursor still holds and `back` the items
/// `next_back` has given, in the order it gave them.
pub open spec fn ends_partition<T>(all: Seq<T>, front: Seq<T>, rest: Seq<T>, back: Seq<T>) -> bool {
    front + rest + back.reverse() == all
}

/// A `next` step, as `Cursor::next` states it, keeps the partition: an item
/// it gives is the next one in order, and once it gives `None` every item has
/// been given exactly once, from one end or the other.
pub proof fn lemma_next_keeps_partition<T>(
    all: Seq<T>,
    front: Seq<T>,
    before: Seq<T>,
    after: Seq<T>,
    back: Seq<T>,
    r: Option<T>,
)
    requires
        ends_partition(all, front, before, back),
        before.len() == 0 ==> r is None && after == before,
        before.len() > 0 ==> r == Some(before[0]) && after == before.drop_first(),
    ensures
        match r {
            Some(x) => ends_partition(all, front.push(x), after, back),
            None => ends_partition(all, front, after, back) && front + back.reverse() == all,
        },
{
    match r {
        Some(x) => {
            assert(front.push(x) + after + back.reverse() =~= front + before + back.reverse());
        },
        None => {
            assert(front + back.reverse() =~= front + before + back.reverse());
        },
    }
}

/// A `next_back` step, as `Cursor::next_back` states it, keeps the
/// partition, from the other end.
pub proof fn lemma_next_back_keeps_partition<T>(
    all: Seq<T>,
    front: Seq<T>,
    before: Seq<T>,
    after: Seq<T>,
    back: Seq<T>,
    r: Option<T>,
)
    requires
        ends_partition(all, front, before, back),
        before.len() == 0 ==> r is None && after == before,
        before.len() > 0 ==> r == Some(before.last()) && after == before.drop_last(),
    ensures
        match r {
            Some(x) => ends_partition(all, front, after, back.push(x)),
            None => ends_partition(all, front, after, back) && front + back.reverse() == all,
        },
{
    match r {
        Some(x) => {
            assert(back.push(x).reverse() =~= seq![x] + back.reverse());
            assert(front + after + back.push(x).reverse() =~= front + before + back.reverse());
        },
        None => {
            assert(front + back.reverse() =~= front + before + back.reverse());
        },
    }
}

/// In the partition, the items given from the front are a prefix of all
/// items, in order, and those given from the back, reversed, a suffix.
pub proof fn lemma_partition_ends<T>(all: Seq<T>, front: Seq<T>, rest: Seq<T>, back: Seq<T>)
    requires
        ends_partition(all, front, rest, back),
    ensures
        front == all.take(front.len() as int),
        back.reverse() == all.skip(all.len() - back.len()),
        front.len() + rest.len() + back.len() == all.len(),
{
    assert(front =~= all.take(front.len() as int));
    assert(back.reverse() =~= all.skip(all.len() - back.len()));
}

/// A cursor over the items of a vector.
pub struct VecCursor<T> {
    items: VecDeque<T>,
}

impl<T> Cursor for VecCursor<T> {
    type Item = T;

    closed spec fn rest(&self) -> Seq<T> {
        self.items@
    }

    open spec fn valid(&self) -> bool {
        true
    }

    fn next(&mut self) -> (r: Option<T>) {
        self.items.pop_front()
    }

    fn next_back(&mut self) -> (r: Option<T>) {
        self.items.pop_back()
    }
}

impl<T> VecCursor<T> {
    pub fn new(v: Vec<T>) -> (c: Self)
        ensures
            c.rest() == v@,
            c.valid(),
    {
        let mut items: VecDeque<T> = VecDeque::new();
        let mut v = v;
        let ghost orig = v@;
        while v.len() > 0
            invariant
                v@ + items@ == orig,
            decreases v.len(),
        {
            let x = v.pop().unwrap();
            items.push_front(x);
            assert(v@ + items@ =~= orig);
        }
        assert(items@ =~= orig);
        VecCursor { items }
    }
}

/// A cursor over the integers `start, start + 1, ..., end - 1`.
pub struct RangeCursor {
    start: u64,
    end: u64,
}

/// The integers from `start` up to, and not including, `end`.
pub open spec fn range_seq(start: u64, end: u64) -> Seq<u64> {
    Seq::new(if start <= end { (end - start) as nat } else { 0 }, |k: int| (start + k) as u64)
}

impl RangeCursor {
    pub closed spec fn spec_new(start: u64, end: u64) -> RangeCursor {
        RangeCursor { start, end: if start <= end { end } else { start } }
    }

    /// The cursor `spec_new` describes yields the integers of the range.
    pub proof fn lemma_spec_new(start: u64, end: u64)
        ensures
            RangeCursor::spec_new(start, end).rest() == range_seq(start, end),
    {
        assert(RangeCursor::spec_new(start, end).rest() =~= range_seq(start, end));
    }

    pub fn new(start: u64, end: u64) -> (r: RangeCursor)
        ensures
            r == RangeCursor::spec_new(start, end),
            r.rest() == range_seq(start, end),
            r.valid(),
    {
        let r = RangeCursor { start, end: if start <= end { end } else { start } };
        assert(r.rest() =~= range_seq(start, end));
        r
    }
}

impl Cursor for RangeCursor {
    type Item = u64;

    closed spec fn rest(&self) -> Seq<u64> {
        range_seq(self.start, self.end)
    }

    open spec fn valid(&self) -> bool {
        true
    }

    fn next(&mut self) -> (r: Option<u64>) {
        if self.start < self.end {
            let x = self.start;
            self.start = self.start + 1;
            assert(self.rest() =~= old(self).rest().drop_first());
            Some(x)
        } else {
            None
        }
    }

    fn next_back(&mut self) -> (r: Option<u64>) {
        if self.start < self.end {
            self.end = self.end - 1;
            assert(self.rest() =~= old(self).rest().drop_last());
            Some(self.end)
        } else {
            None
        }
    }
}

/// `f` accepts every input, and an input never has two outputs.
pub open spec fn total_function<A, B, F: Fn(A) -> B>(f: F) -> bool {
    &&& forall|x: A| #[trigger] f.requires((x,))
    &&& forall|x: A, y1: B, y2: B|
        #[trigger] f.ensures((x,), y1) && #[trigger] f.ensures((x,), y2) ==> y1 == y2
}

/// The output of `f` for `x`.
pub open spec fn apply<A, B, F: Fn(A) -> B>(f: F, x: A) -> B {
    choose|y: B| f.ensures((x,), y)
}

/// `f` accepts every input and each output it gives for `x` is `g(x)`.
pub open spec fn agrees_with<A, B, F: Fn(A) -> B>(f: F, g: spec_fn(A) -> B) -> bool {
    &&& forall|x: A| #[trigger] f.requires((x,))
    &&& forall|x: A, y: B| #[trigger] f.ensures((x,), y) ==> y == g(x)
}

/// A cursor over the images, under a function, of another cursor's items.
///
/// `spec_f` is the mathematical function that `f` computes.
#[verifier::reject_recursive_types(B)]
pub struct MapCursor<C: Cursor, B, F> {
    inner: C,
    f: F,
    spec_f: Ghost<spec_fn(C::Item) -> B>,
    output: std::marker::PhantomData<B>,
}

impl<C: Cursor, B, F: Fn(C::Item) -> B> MapCursor<C, B, F> {
    pub closed spec fn function(self) -> F {
        self.f
    }

    /// The mathematical function that the cursor applies to each item.
    pub closed spec fn spec_function(self) -> spec_fn(C::Item) -> B {
        self.spec_f@
    }

    /// Maps the items of `inner` through a function `f` that is total and
    /// deterministic: its output for `x` is the one output `f`'s contract
    /// allows.
    pub fn new(inner: C, f: F) -> (m: Self)
        requires
            total_function(f),
        ensures
            m.function() == f,
            m.spec_function() == (|x: C::Item| apply(f, x)),
            m.rest() == inner.rest().map_values(|x: C::Item| apply(f, x)),
            m.valid() == inner.valid(),
    {
        let ghost g = |x: C::Item| apply(f, x);
        proof {
            assert forall|x: C::Item, y: B| #[trigger] f.ensures((x,), y) implies y == g(x) by {
                let z = apply(f, x);
                assert(f.ensures((x,), z));
            }
        }
        MapCursor { inner, f, spec_f: Ghost(g), output: std::marker::PhantomData }
    }

    /// Maps the items of `inner` through `f`, which computes `g`.
    pub fn new_with_spec(inner: C, f: F, Ghost(g): Ghost<spec_fn(C::Item) -> B>) -> (m: Self)
        requires
            agrees_with(f, g),
        ensures
            m.function() == f,
            m.spec_function() == g,
            m.rest() == inner.rest().map_values(g),
            m.valid() == inner.valid(),
    {
        MapCursor { inner, f, spec_f: Ghost(g), output: std::marker::PhantomData }
    }
}

impl<C: Cursor, B, F: Fn(C::Item) -> B> Cursor for MapCursor<C, B, F> {
    type Item = B;

    closed spec fn rest(&self) -> Seq<B> {
        self.inner.rest().map_values(self.spec_f@)
    }

    closed spec fn valid(&self) -> bool {
        self.inner.valid() && agrees_with(self.f, self.spec_f@)
    }

    fn next(&mut self) -> (r: Option<B>) {
        match self.inner.next() {
            Some(x) => {
                let y = (self.f)(x);
                assert(self.rest() =~= old(self).rest().drop_first());
                Some(y)
            },
            None => None,
        }
    }

    fn next_back(&mut self) -> (r: Option<B>) {
        match self.inner.next_back() {
            Some(x) => {
                let y = (self.f)(x);
                assert(self.rest() =~= old(self).rest().drop_last());
                Some(y)
            },
            None => None,
        }
    }
}

/// A value that can be turned into a cursor over a known sequence of items.
pub trait IntoCursor: Sized {
    type Item;

    type IntoCur: Cursor<Item = Self::Item>;

    spec fn items(self) -> Seq<Self::Item>;

    /// The value turns into a well-formed cursor.
    spec fn ready(self) -> bool;

    fn into_cursor(self) -> (c: Self::IntoCur)
        requires
            self.ready(),
        ensures
            c.rest() == self.items(),
            c.valid(),
    ;
}

impl<T> IntoCursor for Vec<T> {
    type Item = T;

    type IntoCur = VecCursor<T>;

    open spec fn items(self) -> Seq<T> {
        self@
    }

    open spec fn ready(self) -> bool {
        true
    }

    fn into_cursor(self) -> (c: VecCursor<T>) {
        VecCursor::new(self)
    }
}

impl<C: Cursor> IntoCursor for C {
    type Item = C::Item;

    type IntoCur = C;

    open spec fn items(self) -> Seq<C::Item> {
        self.rest()
    }

    open spec fn ready(self) -> bool {
        self.valid()
    }

    fn into_cursor(self) -> (c: C) {
        self
    }
}

} // verus!
