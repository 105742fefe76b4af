use crate::list::{List, ListIterator};
use crate::RefCounter;
use vstd::prelude::*;

verus! {

/// A persistent double-ended queue, kept in two lists: the front part with
/// its first value first, and the back part with its last value first.
pub struct Deque<T> {
    head: List<T>,
    tail: List<T>,
}

/// What `balance` makes of a front part and a back part: where one of the
/// two is empty, the other one gives it its farther half.
pub open spec fn balanced_parts<T>(front: Seq<T>, back: Seq<T>) -> (Seq<T>, Seq<T>) {
    if front.len() == 0 {
        (back.skip(back.len() as int / 2).reverse(), back.take(back.len() as int / 2))
    } else if back.len() == 0 {
        (front.take(front.len() as int / 2), front.skip(front.len() as int / 2).reverse())
    } else {
        (front, back)
    }
}

/// Balancing moves values between the two parts and keeps their order in
/// the queue.
pub proof fn lemma_balanced_parts_keep_order<T>(front: Seq<T>, back: Seq<T>)
    ensures
        balanced_parts(front, back).0 + balanced_parts(front, back).1.reverse() == front
            + back.reverse(),
        balanced_parts(front, back).0.len() + balanced_parts(front, back).1.len() == front.len()
            + back.len(),
{
    let parts = balanced_parts(front, back);
    assert(parts.0 + parts.1.reverse() =~= front + back.reverse());
}

impl<T> View for Deque<T> {
    type V = Seq<T>;

    /// The values of the queue, the first one first: the front part
    /// followed by the back part, turned round.
    open spec fn view(&self) -> Seq<T> {
        self.front_part() + self.back_part().reverse()
    }
}

impl<T> Clone for Deque<T> {
    /// A second handle on the same queue.
    fn clone(&self) -> (res: Self)
        ensures
            res.front_part() == self.front_part(),
            res.back_part() == self.back_part(),
    {
        proof {
            use_type_invariant(self);
        }
        Self { head: self.head.clone(), tail: self.tail.clone() }
    }
}

impl<T> Deque<T> {
    /// The number of values fits in a `usize`.
    #[verifier::type_invariant]
    spec fn countable(self) -> bool {
        self.head@.len() + self.tail@.len() <= usize::MAX
    }

    /// The front part of the queue, its first value first.
    pub closed spec fn front_part(&self) -> Seq<T> {
        self.head@
    }

    /// The back part of the queue, its last value first.
    pub closed spec fn back_part(&self) -> Seq<T> {
        self.tail@
    }

    /// The queue without values.
    pub fn empty() -> (res: Self)
        ensures
            res.front_part() == Seq::<T>::empty(),
            res.back_part() == Seq::<T>::empty(),
    {
        Self { head: List::empty(), tail: List::empty() }
    }

    /// The queue with `value` before the others.
    pub fn push_front(&self, value: T) -> (res: Self)
        requires
            self@.len() < usize::MAX,
        ensures
            (res.front_part(), res.back_part()) == balanced_parts(
                seq![value] + self.front_part(),
                self.back_part(),
            ),
            res@ == seq![value] + self@,
    {
        proof {
            use_type_invariant(self);
            lemma_balanced_parts_keep_order(seq![value] + self.head@, self.tail@);
            assert((seq![value] + self.head@) + self.tail@.reverse() =~= seq![value] + self@);
        }
        Self { head: self.head.push_front(value), tail: self.tail.clone() }.balance()
    }

    /// The queue with `value` behind the others.
    pub fn push_back(&self, value: T) -> (res: Self)
        requires
            self@.len() < usize::MAX,
        ensures
            (res.front_part(), res.back_part()) == balanced_parts(
                self.front_part(),
                seq![value] + self.back_part(),
            ),
            res@ == self@.push(value),
    {
        proof {
            use_type_invariant(self);
            lemma_balanced_parts_keep_order(self.head@, seq![value] + self.tail@);
            assert(self.head@ + (seq![value] + self.tail@).reverse() =~= self@.push(value));
        }
        Self { head: self.head.clone(), tail: self.tail.push_front(value) }.balance()
    }

    /// The first value of the front part, and the queue without it. Where
    /// the front part is empty, the first value of the back part, which is
    /// the last of the queue, and the queue without it. `None` for the queue
    /// without values.
    pub fn pop_front(&self) -> (res: Option<(&T, Self)>)
        ensures
            match res {
                Some((value, rest)) => if self.front_part().len() > 0 {
                    &&& *value == self.front_part()[0]
                    &&& rest.front_part() == self.front_part().drop_first()
                    &&& rest.back_part() == self.back_part()
                } else {
                    &&& self.back_part().len() > 0
                    &&& *value == self.back_part()[0]
                    &&& rest.front_part() == self.front_part()
                    &&& rest.back_part() == self.back_part().drop_first()
                },
                None => self@.len() == 0,
            },
    {
        proof {
            use_type_invariant(self);
        }
        if self.is_empty() {
            None
        } else if self.head.is_empty() {
            let (a, b) = self.tail.pop_front().unwrap();
            Some((a, Self { head: self.head.clone(), tail: b }))
        } else {
            let (a, b) = self.head.pop_front().unwrap();
            Some((a, Self { head: b, tail: self.tail.clone() }))
        }
    }

    /// The first value of the back part, which is the last of the queue,
    /// and the queue without it. Where the back part is empty, the first
    /// value of the front part, and the queue without it. `None` for the
    /// queue without values.
    pub fn pop_back(&self) -> (res: Option<(&T, Self)>)
        ensures
            match res {
                Some((value, rest)) => if self.back_part().len() > 0 {
                    &&& *value == self.back_part()[0]
                    &&& rest.front_part() == self.front_part()
                    &&& rest.back_part() == self.back_part().drop_first()
                } else {
                    &&& self.front_part().len() > 0
                    &&& *value == self.front_part()[0]
                    &&& rest.front_part() == self.front_part().drop_first()
                    &&& rest.back_part() == self.back_part()
                },
                None => self@.len() == 0,
            },
    {
        proof {
            use_type_invariant(self);
        }
        if self.is_empty() {
            None
        } else if self.tail.is_empty() {
            let (a, b) = self.head.pop_front().unwrap();
            Some((a, Self { head: b, tail: self.tail.clone() }))
        } else {
            let (a, b) = self.tail.pop_front().unwrap();
            Some((a, Self { head: self.head.clone(), tail: b }))
        }
    }

    /// Where one part is empty, hands it the farther half of the other.
    fn balance(&self) -> (res: Self)
        ensures
            (res.front_part(), res.back_part()) == balanced_parts(
                self.front_part(),
                self.back_part(),
            ),
    {
        proof {
            use_type_invariant(self);
            lemma_balanced_parts_keep_order(self.head@, self.tail@);
        }
        if self.head.is_empty() {
            let (tail, rev_head) = self.tail.split();
            let head = rev_head.reverse();
            Self { head, tail }
        } else if self.tail.is_empty() {
            let (head, rev_tail) = self.head.split();
            let tail = rev_tail.reverse();
            Self { head, tail }
        } else {
            self.clone()
        }
    }

    /// Whether the queue has no values.
    pub fn is_empty(&self) -> (res: bool)
        ensures
            res == (self@.len() == 0),
    {
        self.length() == 0
    }

    /// The number of values.
    pub fn length(&self) -> (res: usize)
        ensures
            res == self@.len(),
    {
        proof {
            use_type_invariant(self);
        }
        self.head.length() + self.tail.length()
    }

    /// A walk along the queue, from its first value to its last.
    pub fn iter(&self) -> (res: DequeIterator<T>)
        ensures
            res@ == self@,
    {
        DequeIterator { head_iter: self.head.iter(), tail_iter: self.tail.reverse().iter() }
    }
}

/// A walk along a queue, from its first value.
pub struct DequeIterator<T> {
    head_iter: ListIterator<T>,
    tail_iter: ListIterator<T>,
}

impl<T> View for DequeIterator<T> {
    type V = Seq<T>;

    /// The values that the walk has not yet handed out.
    closed spec fn view(&self) -> Seq<T> {
        self.head_iter@ + self.tail_iter@
    }
}

impl<T> DequeIterator<T> {
    /// Hands out the next value and moves on; `None` at the end.
    pub fn next(&mut self) -> (res: Option<RefCounter<T>>)
        ensures
            match res {
                Some(value) => old(self)@.len() > 0 && *value == old(self)@[0] && final(self)@
                    == old(self)@.drop_first(),
                None => old(self)@.len() == 0 && final(self)@ == old(self)@,
            },
    {
        let ghost front = self.head_iter@;
        let ghost back = self.tail_iter@;
        match self.head_iter.next() {
            Some(value) => {
                proof {
                    assert((front + back).drop_first() =~= front.drop_first() + back);
                }
                Some(value)
            },
            None => {
                let res = self.tail_iter.next();
                proof {
                    assert(front + back =~= back);
                    assert(front + back.drop_first() =~= back.drop_first());
                }
                res
            },
        }
    }
}

} // verus!
