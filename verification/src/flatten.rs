use vstd::prelude::*;
use crate::cursor::{Cursor, IntoCursor};

verus! {

/// The items still to come from an optional inner cursor.
pub open spec fn opt_rest<C: Cursor>(c: Option<C>) -> Seq<C::Item> {
    match c {
        Some(c) => c.rest(),
        None => Seq::empty(),
    }
}

/// The optional inner cursor, if any, is well-formed.
pub open spec fn opt_valid<C: Cursor>(c: Option<C>) -> bool {
    match c {
        Some(c) => c.valid(),
        None => true,
    }
}

/// Every inner value in `s` turns into a well-formed cursor.
pub open spec fn all_ready<I: IntoCursor>(s: Seq<I>) -> bool {
    forall|i: int| 0 <= i < s.len() ==> (#[trigger] s[i]).ready()
}

/// The concatenation of the item sequences of a sequence of inner values.
pub open spec fn concat_items<I: IntoCursor>(s: Seq<I>) -> Seq<I::Item> {
    s.map_values(|x: I| x.items()).flatten()
}

/// How many inner values a step from the front takes from `s` once the front
/// inner cursor is spent: those up to and including the first that has items,
/// or all of them where none has.
pub open spec fn pulled_front<I: IntoCursor>(s: Seq<I>) -> nat
    decreases s.len(),
{
    if s.len() == 0 {
        0
    } else if s[0].items().len() > 0 {
        1
    } else {
        1 + pulled_front(s.drop_first())
    }
}

/// How many inner values a step from the back takes from the end of `s` once
/// the back inner cursor is spent: those down to and including the last that
/// has items, or all of them where none has.
pub open spec fn pulled_back<I: IntoCursor>(s: Seq<I>) -> nat
    decreases s.len(),
{
    if s.len() == 0 {
        0
    } else if s.last().items().len() > 0 {
        1
    } else {
        1 + pulled_back(s.drop_last())
    }
}

/// Where the first `j` inner values have no items, a step from the front
/// passes over all of them.
proof fn lemma_pulled_front_prefix<I: IntoCursor>(s: Seq<I>, j: int)
    requires
        0 <= j <= s.len(),
        forall|i: int| 0 <= i < j ==> (#[trigger] s[i]).items().len() == 0,
    ensures
        pulled_front(s) == j + pulled_front(s.skip(j)),
    decreases j,
{
    if j == 0 {
        assert(s.skip(0) =~= s);
    } else {
        assert(s[0].items().len() == 0);
        let t = s.drop_first();
        assert forall|i: int| 0 <= i < j - 1 implies (#[trigger] t[i]).items().len() == 0 by {
            assert(t[i] == s[i + 1]);
        }
        lemma_pulled_front_prefix(t, j - 1);
        assert(t.skip(j - 1) =~= s.skip(j));
    }
}

/// Where the last `j` inner values have no items, a step from the back
/// passes over all of them.
proof fn lemma_pulled_back_suffix<I: IntoCursor>(s: Seq<I>, j: int)
    requires
        0 <= j <= s.len(),
        forall|i: int| s.len() - j <= i < s.len() ==> (#[trigger] s[i]).items().len() == 0,
    ensures
        pulled_back(s) == j + pulled_back(s.take(s.len() - j)),
    decreases j,
{
    if j == 0 {
        assert(s.take(s.len() as int) =~= s);
    } else {
        assert(s[s.len() - 1].items().len() == 0);
        let t = s.drop_last();
        assert forall|i: int| t.len() - (j - 1) <= i < t.len() implies (#[trigger] t[i]).items().len()
            == 0 by {
            assert(t[i] == s[i]);
        }
        lemma_pulled_back_suffix(t, j - 1);
        assert(t.take(t.len() - (j - 1)) =~= s.take(s.len() - j));
    }
}

/// A cursor that walks the items of every inner value of an outer cursor, in
/// order, from either end.
///
/// `front_iter` is the inner cursor being walked from the front, `back_iter`
/// the one being walked from the back; `outer` holds the inner values that
/// neither end has started.
pub struct Flatten<O> where O: Cursor, O::Item: IntoCursor {
    outer: O,
    front_iter: Option<<O::Item as IntoCursor>::IntoCur>,
    back_iter: Option<<O::Item as IntoCursor>::IntoCur>,
}

/// The items of a non-empty sequence of inner values start with those of the
/// first.
pub proof fn lemma_concat_items_first<I: IntoCursor>(s: Seq<I>)
    requires
        s.len() > 0,
    ensures
        concat_items(s) == s[0].items() + concat_items(s.drop_first()),
{
    let m = s.map_values(|x: I| x.items());
    assert(m.drop_first() =~= s.drop_first().map_values(|x: I| x.items()));
}

/// The items of a non-empty sequence of inner values end with those of the
/// last.
pub proof fn lemma_concat_items_last<I: IntoCursor>(s: Seq<I>)
    requires
        s.len() > 0,
    ensures
        concat_items(s) == concat_items(s.drop_last()) + s.last().items(),
{
    let m = s.map_values(|x: I| x.items());
    assert(m.drop_last() =~= s.drop_last().map_values(|x: I| x.items()));
    m.lemma_flatten_and_flatten_alt_are_equivalent();
    m.drop_last().lemma_flatten_and_flatten_alt_are_equivalent();
}

impl<O> Flatten<O> where O: Cursor, O::Item: IntoCursor {
    /// The inner values that neither end has started yet.
    pub closed spec fn outer_rest(&self) -> Seq<O::Item> {
        self.outer.rest()
    }

    /// The items still to come from the inner cursor started at the front.
    pub closed spec fn front_rest(&self) -> Seq<<O::Item as IntoCursor>::Item> {
        opt_rest(self.front_iter)
    }

    /// The items still to come from the inner cursor started at the back.
    pub closed spec fn back_rest(&self) -> Seq<<O::Item as IntoCursor>::Item> {
        opt_rest(self.back_iter)
    }

    /// What is still to come is the front inner cursor's items, then those of
    /// the inner values not started, then the back inner cursor's items.
    pub proof fn lemma_rest_parts(&self)
        ensures
            self.rest() == self.front_rest() + concat_items(self.outer_rest()) + self.back_rest(),
            self.valid() ==> all_ready(self.outer_rest()),
    {
    }

    /// A flattening cursor that has not started any inner value yet.
    pub fn new(iter: O) -> (f: Self)
        requires
            iter.valid(),
            all_ready(iter.rest()),
        ensures
            f.rest() == concat_items(iter.rest()),
            f.valid(),
            f.outer_rest() == iter.rest(),
            f.front_rest().len() == 0,
            f.back_rest().len() == 0,
    {
        let f = Flatten { outer: iter, front_iter: None, back_iter: None };
        assert(f.rest() =~= concat_items(iter.rest()));
        f
    }
}

impl<O> Cursor for Flatten<O> where O: Cursor, O::Item: IntoCursor {
    type Item = <O::Item as IntoCursor>::Item;

    closed spec fn rest(&self) -> Seq<Self::Item> {
        opt_rest(self.front_iter) + concat_items(self.outer.rest()) + opt_rest(self.back_iter)
    }

    closed spec fn valid(&self) -> bool {
        &&& self.outer.valid()
        &&& all_ready(self.outer.rest())
        &&& opt_valid(self.front_iter)
        &&& opt_valid(self.back_iter)
    }

    /// Takes the next item from the front inner cursor; once that is spent,
    /// takes inner values from the front of the outer cursor, only until one
    /// has items. The back inner cursor is touched only when nothing else is
    /// left.
    fn next(&mut self) -> (r: Option<Self::Item>)
        ensures
            old(self).front_rest().len() > 0 ==> final(self).outer_rest() == old(self).outer_rest(),
            old(self).front_rest().len() == 0 ==> final(self).outer_rest() == old(
                self,
            ).outer_rest().skip(pulled_front(old(self).outer_rest()) as int),
            old(self).front_rest().len() > 0 || concat_items(old(self).outer_rest()).len() > 0
                ==> final(self).back_rest() == old(self).back_rest(),
    {
        let ghost all = self.rest();
        let ghost o0 = self.outer.rest();
        let ghost f0 = opt_rest(self.front_iter);
        let ghost b0 = opt_rest(self.back_iter);
        let ghost mut pulled: int = 0;
        loop
            invariant
                self.rest() == all,
                all == old(self).rest(),
                self.valid(),
                o0 == old(self).outer_rest(),
                f0 == old(self).front_rest(),
                b0 == old(self).back_rest(),
                all == f0 + concat_items(o0) + b0,
                0 <= pulled <= o0.len(),
                self.outer.rest() == o0.skip(pulled),
                opt_rest(self.back_iter) == b0,
                pulled == 0 ==> opt_rest(self.front_iter) == f0,
                pulled > 0 ==> f0.len() == 0 && opt_rest(self.front_iter) == o0[pulled - 1].items(),
                forall|i: int| 0 <= i < pulled - 1 ==> (#[trigger] o0[i]).items().len() == 0,
            decreases self.outer.rest().len(),
        {
            if let Some(mut front) = self.front_iter.take() {
                if let Some(i) = front.next() {
                    self.front_iter = Some(front);
                    assert(self.rest() =~= all.drop_first());
                    proof {
                        if pulled > 0 {
                            lemma_pulled_front_prefix(o0, pulled - 1);
                            assert(o0.skip(pulled - 1)[0] == o0[pulled - 1]);
                        }
                    }
                    return Some(i);
                }
                assert(self.rest() =~= all);
            }
            let ghost outer_rest = self.outer.rest();
            proof {
                if pulled > 0 {
                    assert(o0[pulled - 1].items().len() == 0);
                }
            }
            if let Some(next_inner) = self.outer.next() {
                proof {
                    lemma_concat_items_first(outer_rest);
                    assert(outer_rest[0] == o0[pulled]);
                    assert(outer_rest.drop_first() =~= o0.skip(pulled + 1));
                    pulled = pulled + 1;
                }
                self.front_iter = Some(next_inner.into_cursor());
                assert(self.rest() =~= all);
            } else {
                assert(concat_items(outer_rest) =~= Seq::<Self::Item>::empty());
                proof {
                    assert(pulled == o0.len());
                    lemma_pulled_front_prefix(o0, pulled);
                    assert(o0.skip(pulled) =~= Seq::<O::Item>::empty());
                }
                match self.back_iter.take() {
                    Some(mut back) => {
                        let r = back.next();
                        self.back_iter = Some(back);
                        assert(self.rest() =~= opt_rest(self.back_iter));
                        return r;
                    },
                    None => {
                        return None;
                    },
                }
            }
        }
    }

    /// Takes the last item from the back inner cursor; once that is spent,
    /// takes inner values from the back of the outer cursor, only until one
    /// has items. The front inner cursor is touched only when nothing else is
    /// left.
    fn next_back(&mut self) -> (r: Option<Self::Item>)
        ensures
            old(self).back_rest().len() > 0 ==> final(self).outer_rest() == old(self).outer_rest(),
            old(self).back_rest().len() == 0 ==> final(self).outer_rest() == old(
                self,
            ).outer_rest().take(old(self).outer_rest().len() - pulled_back(old(self).outer_rest())),
            old(self).back_rest().len() > 0 || concat_items(old(self).outer_rest()).len() > 0
                ==> final(self).front_rest() == old(self).front_rest(),
    {
        let ghost all = self.rest();
        let ghost o0 = self.outer.rest();
        let ghost f0 = opt_rest(self.front_iter);
        let ghost b0 = opt_rest(self.back_iter);
        let ghost n = o0.len() as int;
        let ghost mut pulled: int = 0;
        loop
            invariant
                self.rest() == all,
                all == old(self).rest(),
                self.valid(),
                o0 == old(self).outer_rest(),
                f0 == old(self).front_rest(),
                b0 == old(self).back_rest(),
                n == o0.len(),
                all == f0 + concat_items(o0) + b0,
                0 <= pulled <= n,
                self.outer.rest() == o0.take(n - pulled),
                opt_rest(self.front_iter) == f0,
                pulled == 0 ==> opt_rest(self.back_iter) == b0,
                pulled > 0 ==> b0.len() == 0 && opt_rest(self.back_iter) == o0[n - pulled].items(),
                forall|i: int| n - pulled + 1 <= i < n ==> (#[trigger] o0[i]).items().len() == 0,
            decreases self.outer.rest().len(),
        {
            if let Some(mut back) = self.back_iter.take() {
                if let Some(i) = back.next_back() {
                    self.back_iter = Some(back);
                    assert(self.rest() =~= all.drop_last());
                    proof {
                        if pulled > 0 {
                            lemma_pulled_back_suffix(o0, pulled - 1);
                            let t = o0.take(n - (pulled - 1));
                            assert(t.last() == o0[n - pulled]);
                            assert(t.drop_last() =~= o0.take(n - pulled));
                        }
                    }
                    return Some(i);
                }
                assert(self.rest() =~= all);
            }
            let ghost outer_rest = self.outer.rest();
            proof {
                if pulled > 0 {
                    assert(o0[n - pulled].items().len() == 0);
                }
            }
            if let Some(next_back_inner) = self.outer.next_back() {
                proof {
                    lemma_concat_items_last(outer_rest);
                    assert(outer_rest.last() == o0[n - pulled - 1]);
                    assert(outer_rest.drop_last() =~= o0.take(n - (pulled + 1)));
                    pulled = pulled + 1;
                }
                self.back_iter = Some(next_back_inner.into_cursor());
                assert(self.rest() =~= all);
            } else {
                assert(concat_items(outer_rest) =~= Seq::<Self::Item>::empty());
                proof {
                    assert(pulled == n);
                    lemma_pulled_back_suffix(o0, pulled);
                    assert(o0.take(0) =~= Seq::<O::Item>::empty());
                }
                match self.front_iter.take() {
                    Some(mut front) => {
                        let r = front.next_back();
                        self.front_iter = Some(front);
                        assert(self.rest() =~= opt_rest(self.front_iter));
                        return r;
                    },
                    None => {
                        return None;
                    },
                }
            }
        }
    }
}

/// Flattens a value whose items are themselves turned into cursors.
pub fn flatten<I>(iter: I) -> (f: Flatten<I::IntoCur>)
    where I: IntoCursor, I::Item: IntoCursor,
    requires
        iter.ready(),
        all_ready(iter.items()),
    ensures
        f.rest() == concat_items(iter.items()),
        f.valid(),
        f.outer_rest() == iter.items(),
        f.front_rest().len() == 0,
        f.back_rest().len() == 0,
{
    Flatten::new(iter.into_cursor())
}

/// Flattening as a method of every cursor whose items turn into cursors.
pub trait IteratorExt: Cursor {
    fn our_flatten(self) -> (f: Flatten<Self>)
        where Self::Item: IntoCursor
        requires
            self.valid(),
            all_ready(self.rest()),
        ensures
            f.rest() == concat_items(self.rest()),
            f.valid(),
            f.outer_rest() == self.rest(),
            f.front_rest().len() == 0,
            f.back_rest().len() == 0,
    ;
}

impl<T: Cursor> IteratorExt for T {
    fn our_flatten(self) -> (f: Flatten<Self>)
        where Self::Item: IntoCursor
    {
        flatten(self)
    }
}

} // verus!
