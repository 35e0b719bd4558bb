//! A stack and a queue that know their least element at every moment.

use vstd::prelude::*;
use crate::order::{at_least, lemma_strict_order, lesser, lt, total_order};

verus! {

/// The least element of a non-empty sequence; of several that are least,
/// there is only one value.
#[verifier::opaque]
pub open spec fn least<T: Ord>(s: Seq<T>) -> T
    recommends
        s.len() > 0,
    decreases s.len(),
{
    if s.len() <= 1 {
        s[0]
    } else if lt(s.last(), least(s.drop_last())) {
        s.last()
    } else {
        least(s.drop_last())
    }
}

/// The least element of a sequence, if it has any element.
pub open spec fn min_of<T: Ord>(s: Seq<T>) -> Option<T> {
    if s.len() == 0 {
        None
    } else {
        Some(least(s))
    }
}

/// The least element after one more element is put at the end.
pub proof fn lemma_least_push<T: Ord>(s: Seq<T>, v: T)
    ensures
        least(s.push(v)) == if s.len() == 0 || lt(v, least(s)) {
            v
        } else {
            least(s)
        },
{
    reveal(least);
    assert(s.push(v).drop_last() =~= s);
    assert(s.push(v).last() == v);
}

/// The least element of a non-empty sequence is one of its elements, and
/// none of them is less.
pub proof fn lemma_least<T: Ord>(s: Seq<T>)
    requires
        total_order::<T>(),
        s.len() > 0,
    ensures
        s.contains(least(s)),
        forall|i: int| 0 <= i < s.len() ==> !lt(#[trigger] s[i], least(s)),
    decreases s.len(),
{
    reveal(least);
    lemma_strict_order::<T>();
    if s.len() > 1 {
        let t = s.drop_last();
        lemma_least(t);
        let m = least(t);
        let j = choose|j: int| 0 <= j < t.len() && t[j] == m;
        assert(s[j] == m);
        assert(s[s.len() - 1] == s.last());
        assert forall|i: int| 0 <= i < s.len() implies !lt(#[trigger] s[i], least(s)) by {
            if i < t.len() {
                assert(t[i] == s[i]);
            }
        }
    } else {
        assert(s[0] == least(s));
    }
}

/// An element that none is less than is the least.
pub proof fn lemma_least_is<T: Ord>(s: Seq<T>, m: T)
    requires
        total_order::<T>(),
        s.contains(m),
        forall|i: int| 0 <= i < s.len() ==> !lt(#[trigger] s[i], m),
    ensures
        least(s) == m,
{
    lemma_strict_order::<T>();
    lemma_least(s);
    let i = choose|i: int| 0 <= i < s.len() && s[i] == m;
    let j = choose|j: int| 0 <= j < s.len() && s[j] == least(s);
    assert(!lt(s[i], least(s)));
    assert(!lt(s[j], m));
}

/// The least element of two non-empty sequences put together, the first of
/// them back to front, is the lesser of their least elements.
pub proof fn lemma_least_of_two<T: Ord>(a: Seq<T>, b: Seq<T>)
    requires
        total_order::<T>(),
        a.len() > 0,
        b.len() > 0,
    ensures
        least(a.reverse() + b) == if lt(least(a), least(b)) {
            least(a)
        } else {
            least(b)
        },
{
    lemma_strict_order::<T>();
    let s = a.reverse() + b;
    lemma_least(a);
    lemma_least(b);
    let ia = choose|i: int| 0 <= i < a.len() && a[i] == least(a);
    let ib = choose|i: int| 0 <= i < b.len() && b[i] == least(b);
    assert(s[a.len() - 1 - ia] == a[ia]);
    assert(s[a.len() + ib] == b[ib]);
    let m = if lt(least(a), least(b)) {
        least(a)
    } else {
        least(b)
    };
    assert forall|i: int| 0 <= i < s.len() implies !lt(#[trigger] s[i], m) by {
        if i < a.len() {
            assert(s[i] == a[a.len() - 1 - i]);
            assert(!lt(a[a.len() - 1 - i], least(a)));
        } else {
            assert(s[i] == b[i - a.len()]);
            assert(!lt(b[i - a.len()], least(b)));
        }
    }
    lemma_least_is(s, m);
}

/// Turning a sequence back to front does not change its least element.
pub proof fn lemma_least_reverse<T: Ord>(a: Seq<T>)
    requires
        total_order::<T>(),
        a.len() > 0,
    ensures
        least(a.reverse()) == least(a),
{
    let s = a.reverse();
    lemma_least(a);
    let ia = choose|i: int| 0 <= i < a.len() && a[i] == least(a);
    assert(s[a.len() - 1 - ia] == a[ia]);
    assert forall|i: int| 0 <= i < s.len() implies !lt(#[trigger] s[i], least(a)) by {
        assert(s[i] == a[a.len() - 1 - i]);
    }
    lemma_least_is(s, least(a));
}

/// An element of the stack, with the place of the least element among it
/// and those below it.
struct Item<T> {
    val: T,
    idx_of_min: usize,
}

/// A stack that also gives its least element.
pub struct MinStack<T> {
    vec: Vec<Item<T>>,
}

/// The values of the items, in their order.
spec fn values<T>(items: Seq<Item<T>>) -> Seq<T> {
    Seq::new(items.len(), |i: int| items[i].val)
}

/// Each item names the place of the least value among itself and the items
/// below it.
#[verifier::opaque]
spec fn indexed<T: Ord>(items: Seq<Item<T>>) -> bool
    decreases items.len(),
{
    items.len() > 0 ==> {
        &&& indexed(items.drop_last())
        &&& items.last().idx_of_min < items.len()
        &&& items[items.last().idx_of_min as int].val == least(values(items))
    }
}

/// What one more item on top asks for.
proof fn lemma_indexed_push<T: Ord>(items: Seq<Item<T>>, it: Item<T>)
    requires
        indexed(items),
        it.idx_of_min <= items.len(),
        items.len() == 0 ==> it.idx_of_min == 0,
        items.len() > 0 ==> it.idx_of_min == if lt(
            it.val,
            items[items.last().idx_of_min as int].val,
        ) {
            items.len()
        } else {
            items.last().idx_of_min as nat
        },
    ensures
        indexed(items.push(it)),
        values(items.push(it)) == values(items).push(it.val),
{
    reveal(indexed);
    let next = items.push(it);
    assert(next.drop_last() =~= items);
    assert(values(next) =~= values(items).push(it.val));
    lemma_least_push(values(items), it.val);
}

/// What the items say with the top one off, and of the least value.
proof fn lemma_indexed_top<T: Ord>(items: Seq<Item<T>>)
    requires
        indexed(items),
        items.len() > 0,
    ensures
        indexed(items.drop_last()),
        values(items.drop_last()) == values(items).drop_last(),
        values(items).last() == items.last().val,
        items.last().idx_of_min < items.len(),
        items[items.last().idx_of_min as int].val == least(values(items)),
{
    reveal(indexed);
    assert(values(items.drop_last()) =~= values(items).drop_last());
}

impl<T> View for MinStack<T> {
    type V = Seq<T>;

    /// The elements of the stack, the top last.
    closed spec fn view(&self) -> Seq<T> {
        values(self.vec@)
    }
}

impl<T: Clone + Ord> MinStack<T> {
    /// Well-formedness: what the stack records of its least elements is
    /// true.
    pub closed spec fn wf(self) -> bool {
        indexed(self.vec@)
    }

    /// The empty stack.
    pub fn new() -> (res: Self)
        ensures
            res.wf(),
            res@ == Seq::<T>::empty(),
    {
        let res = Self { vec: Vec::new() };
        proof {
            reveal(indexed);
            assert(res@ =~= Seq::<T>::empty());
        }
        res
    }

    /// Puts `val` on top of the items, with the place of the least value.
    fn vec_push(vec: &mut Vec<Item<T>>, val: T)
        requires
            total_order::<T>(),
            indexed(old(vec)@),
        ensures
            indexed(final(vec)@),
            values(final(vec)@) == values(old(vec)@).push(val),
    {
        let mut idx_of_min: usize = vec.len();
        proof {
            if vec@.len() > 0 {
                lemma_indexed_top(vec@);
            }
        }

        match vec.last() {
            Some(it) => {
                let idx: usize = it.idx_of_min;
                if at_least(&val, &vec[idx].val) {
                    idx_of_min = idx
                }
            },
            None => {},
        }

        proof {
            lemma_indexed_push(vec@, Item { val, idx_of_min });
        }
        vec.push(Item { val, idx_of_min });
    }

    /// The least value among the items.
    fn vec_min(vec: &Vec<Item<T>>) -> (res: Option<&T>)
        requires
            indexed(vec@),
        ensures
            res == match min_of(values(vec@)) {
                Some(m) => Some(&m),
                None => None,
            },
    {
        proof {
            if vec@.len() > 0 {
                lemma_indexed_top(vec@);
            }
        }
        match vec.last() {
            Some(it) => Some(&vec[it.idx_of_min].val),
            None => None,
        }
    }

    /// Puts `val` on top.
    pub fn push(&mut self, val: T)
        requires
            total_order::<T>(),
            old(self).wf(),
        ensures
            final(self).wf(),
            final(self)@ == old(self)@.push(val),
    {
        Self::vec_push(&mut self.vec, val)
    }

    /// Takes the top element off.
    pub fn pop(&mut self) -> (res: Option<T>)
        requires
            old(self).wf(),
        ensures
            final(self).wf(),
            res == if old(self)@.len() > 0 {
                Some(old(self)@.last())
            } else {
                None
            },
            final(self)@ == if old(self)@.len() > 0 {
                old(self)@.drop_last()
            } else {
                old(self)@
            },
    {
        proof {
            if self.vec@.len() > 0 {
                lemma_indexed_top(self.vec@);
            }
        }
        match self.vec.pop() {
            Some(it) => Some(it.val),
            None => None,
        }
    }

    /// The top element.
    pub fn last(&mut self) -> (res: Option<&T>)
        ensures
            *final(self) == *old(self),
            res == if old(self)@.len() > 0 {
                Some(&old(self)@.last())
            } else {
                None
            },
    {
        match self.vec.last() {
            Some(it) => Some(&it.val),
            None => None,
        }
    }

    /// The least element.
    pub fn min(&self) -> (res: Option<&T>)
        requires
            self.wf(),
        ensures
            res == match min_of(self@) {
                Some(m) => Some(&m),
                None => None,
            },
    {
        Self::vec_min(&self.vec)
    }

    /// The number of elements.
    pub fn len(&self) -> (res: usize)
        ensures
            res == self@.len(),
    {
        self.vec.len()
    }

    /// Whether the stack has no element.
    pub fn is_empty(&self) -> (res: bool)
        ensures
            res == (self@.len() == 0),
    {
        self.vec.is_empty()
    }

    /// Moves every element over to `to`, the top one first, so that they
    /// stand on `to` in reverse order.
    pub fn move_to(&mut self, to: &mut MinStack<T>)
        requires
            total_order::<T>(),
            old(self).wf(),
            old(to).wf(),
        ensures
            final(self).wf(),
            final(to).wf(),
            final(self)@ == Seq::<T>::empty(),
            final(to)@ == old(to)@ + old(self)@.reverse(),
    {
        let ghost from0 = self@;
        let ghost to0 = to@;
        proof {
            lemma_moved(to0, from0, from0.len() as int);
        }
        loop
            invariant
                total_order::<T>(),
                self.wf(),
                to.wf(),
                self@.len() <= from0.len(),
                self@ == from0.take(self@.len() as int),
                to@ == to0 + from0.skip(self@.len() as int).reverse(),
            ensures
                self.wf(),
                to.wf(),
                self@ == Seq::<T>::empty(),
                to@ == to0 + from0.reverse(),
            decreases self@.len(),
        {
            proof {
                lemma_moved(to0, from0, self@.len() as int);
            }
            match self.pop() {
                Some(val) => {
                    to.push(val);
                },
                None => {
                    break ;
                },
            }
        }
    }
}

/// One step of moving a stack over: with `n` elements still to move, the
/// next one is the last of them, and it goes on top of those moved so far.
proof fn lemma_moved<T>(to0: Seq<T>, from0: Seq<T>, n: int)
    requires
        0 <= n <= from0.len(),
    ensures
        n == from0.len() ==> from0.take(n) == from0 && to0 + from0.skip(n).reverse() == to0,
        n == 0 ==> from0.take(n) == Seq::<T>::empty() && to0 + from0.skip(n).reverse() == to0
            + from0.reverse(),
        n > 0 ==> from0.take(n).last() == from0[n - 1] && from0.take(n).drop_last() == from0.take(
            n - 1,
        ) && (to0 + from0.skip(n).reverse()).push(from0[n - 1]) == to0 + from0.skip(
            n - 1,
        ).reverse(),
{
    if n == from0.len() {
        assert(from0.take(n) =~= from0);
        assert(to0 + from0.skip(n).reverse() =~= to0);
    }
    if n == 0 {
        assert(from0.take(n) =~= Seq::<T>::empty());
        assert(from0.skip(0) =~= from0);
    }
    if n > 0 {
        assert(from0.take(n).drop_last() =~= from0.take(n - 1));
        assert((to0 + from0.skip(n).reverse()).push(from0[n - 1]) =~= to0 + from0.skip(
            n - 1,
        ).reverse());
    }
}

/// The front of a queue kept in two stacks: with an output stack that is
/// not empty, the front is its top, and the rest is what the two stacks hold
/// with that top off.
proof fn lemma_front<T>(output: Seq<T>, input: Seq<T>)
    ensures
        output.len() > 0 ==> (output.reverse() + input)[0] == output.last() && (output.reverse()
            + input).drop_first() == output.drop_last().reverse() + input,
        output.len() == 0 ==> output.reverse() + input == input && Seq::<T>::empty()
            + input.reverse() == input.reverse() && input.reverse().reverse() + Seq::<T>::empty()
            == input,
        (output.reverse() + input).len() == output.len() + input.len(),
        forall|v: T| #[trigger] (output.reverse() + input).push(v) == output.reverse() + input.push(v),
{
    if output.len() > 0 {
        assert((output.reverse() + input)[0] == output.reverse()[0]);
        assert((output.reverse() + input).drop_first() =~= output.drop_last().reverse() + input);
    } else {
        assert(output.reverse() + input =~= input);
        assert(Seq::<T>::empty() + input.reverse() =~= input.reverse());
        assert(input.reverse().reverse() + Seq::<T>::empty() =~= input);
    }
    assert forall|v: T| #[trigger] (output.reverse() + input).push(v) == output.reverse() + input.push(v) by {
        assert((output.reverse() + input).push(v) =~= output.reverse() + input.push(v));
    }
}

/// A queue that also gives its least element.
pub struct MinQueue<T> {
    input: MinStack<T>,
    output: MinStack<T>,
}

impl<T> View for MinQueue<T> {
    type V = Seq<T>;

    /// The elements of the queue, the front first.
    closed spec fn view(&self) -> Seq<T> {
        self.output@.reverse() + self.input@
    }
}

impl<T: Clone + Ord> MinQueue<T> {
    /// Well-formedness: both stacks are well-formed, and the length fits a
    /// `usize`.
    pub closed spec fn wf(self) -> bool {
        &&& self.input.wf()
        &&& self.output.wf()
        &&& self.input@.len() + self.output@.len() <= usize::MAX
    }

    /// The empty queue.
    pub fn new() -> (res: Self)
        ensures
            res.wf(),
            res@ == Seq::<T>::empty(),
    {
        let res = Self { input: MinStack::new(), output: MinStack::new() };
        proof {
            lemma_front(res.output@, res.input@);
        }
        res
    }

    /// Puts `val` at the back.
    pub fn push(&mut self, val: T)
        requires
            total_order::<T>(),
            old(self).wf(),
            old(self)@.len() < usize::MAX,
        ensures
            final(self).wf(),
            final(self)@ == old(self)@.push(val),
    {
        proof {
            lemma_front(self.output@, self.input@);
        }
        self.input.push(val);
    }

    /// Moves the input over to the output where the output has run empty.
    fn pour(&mut self)
        requires
            total_order::<T>(),
            old(self).wf(),
        ensures
            final(self).wf(),
            final(self)@ == old(self)@,
            final(self)@.len() > 0 ==> final(self).output@.len() > 0,
    {
        proof {
            lemma_front(self.output@, self.input@);
            lemma_front(self.input@.reverse(), Seq::<T>::empty());
        }
        if self.output.is_empty() {
            self.input.move_to(&mut self.output);
        }
    }

    /// Takes the front element off.
    pub fn pop(&mut self) -> (res: Option<T>)
        requires
            total_order::<T>(),
            old(self).wf(),
        ensures
            final(self).wf(),
            res == if old(self)@.len() > 0 {
                Some(old(self)@[0])
            } else {
                None
            },
            final(self)@ == if old(self)@.len() > 0 {
                old(self)@.drop_first()
            } else {
                old(self)@
            },
    {
        self.pour();
        proof {
            lemma_front(self.output@, self.input@);
        }
        self.output.pop()
    }

    /// The front element.
    pub fn front(&mut self) -> (res: Option<&T>)
        requires
            total_order::<T>(),
            old(self).wf(),
        ensures
            final(self).wf(),
            final(self)@ == old(self)@,
            res == if old(self)@.len() > 0 {
                Some(&old(self)@[0])
            } else {
                None
            },
    {
        self.pour();
        proof {
            lemma_front(self.output@, self.input@);
        }
        self.output.last()
    }

    /// The least element.
    pub fn min(&self) -> (res: Option<&T>)
        requires
            total_order::<T>(),
            self.wf(),
        ensures
            res == match min_of(self@) {
                Some(m) => Some(&m),
                None => None,
            },
    {
        proof {
            lemma_front(self.output@, self.input@);
            if self.output@.len() > 0 {
                if self.input@.len() > 0 {
                    lemma_least_of_two(self.output@, self.input@);
                    lemma_strict_order::<T>();
                } else {
                    lemma_least_reverse(self.output@);
                    assert(self.output@.reverse() + self.input@ =~= self.output@.reverse());
                }
            }
        }
        let a = self.input.min();
        let b = self.output.min();

        if a.is_none() {
            b
        } else if b.is_none() {
            a
        } else {
            Some(lesser(a.unwrap(), b.unwrap()))
        }
    }

    /// The number of elements.
    pub fn len(&self) -> (res: usize)
        requires
            self.wf(),
        ensures
            res == self@.len(),
    {
        proof {
            lemma_front(self.output@, self.input@);
        }
        self.input.len() + self.output.len()
    }

    /// Whether the queue has no element.
    pub fn is_empty(&self) -> (res: bool)
        requires
            self.wf(),
        ensures
            res == (self@.len() == 0),
    {
        self.len() == 0
    }
}

} // verus!
