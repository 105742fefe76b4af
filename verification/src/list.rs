use crate::RefCounter;
use vstd::prelude::*;

verus! {

enum ListNode<T> {
    Empty,
    Value { value: RefCounter<T>, next_node: RefCounter<ListNode<T>> },
}

impl<T> ListNode<T> {
    /// The values from this node on.
    spec fn items(&self) -> Seq<T>
        decreases self,
    {
        match self {
            ListNode::Empty => Seq::empty(),
            ListNode::Value { value, next_node } => seq![**value] + next_node.items(),
        }
    }
}

impl<T> Clone for ListNode<T> {
    fn clone(&self) -> (res: Self)
        ensures
            res == *self,
    {
        match self {
            ListNode::Empty => ListNode::Empty,
            ListNode::Value { value, next_node } => ListNode::Value {
                value: value.clone(),
                next_node: next_node.clone(),
            },
        }
    }
}

/// A persistent singly linked list.
pub struct List<T> {
    head: RefCounter<ListNode<T>>,
    len: usize,
}

/// A walk along a list, from its front.
pub struct ListIterator<T> {
    current: RefCounter<ListNode<T>>,
}

impl<T> View for ListIterator<T> {
    type V = Seq<T>;

    /// The values that the walk has not yet handed out.
    closed spec fn view(&self) -> Seq<T> {
        self.current.items()
    }
}

impl<T> ListIterator<T> {
    /// Hands out the next value and moves on; `None` at the end.
    pub fn next(&mut self) -> (res: Option<RefCounter<T>>)
        ensures
            match res {
                Some(value) => old(self)@.len() > 0 && *value == old(self)@[0] && final(self)@
                    == old(self)@.drop_first(),
                None => old(self)@.len() == 0 && final(self)@ == old(self)@,
            },
    {
        let current = self.current.clone();
        match &*current {
            ListNode::Empty => None,
            ListNode::Value { value, next_node } => {
                let return_value = value.clone();
                self.current = next_node.clone();
                proof {
                    assert((seq![**value] + next_node.items()).drop_first() =~= next_node.items());
                }
                Some(return_value)
            },
        }
    }
}

impl<T> View for List<T> {
    type V = Seq<T>;

    /// The values of the list, the front first.
    closed spec fn view(&self) -> Seq<T> {
        self.head.items()
    }
}

impl<T> Clone for List<T> {
    /// A second handle on the same list.
    fn clone(&self) -> (res: Self)
        ensures
            res@ == self@,
    {
        proof {
            use_type_invariant(self);
        }
        List { head: self.head.clone(), len: self.len }
    }
}

impl<T> List<T> {
    /// `len` is the number of values.
    #[verifier::type_invariant]
    spec fn counted(self) -> bool {
        self.len == self.head.items().len()
    }

    /// A walk along the list.
    pub fn iter(&self) -> (res: ListIterator<T>)
        ensures
            res@ == self@,
    {
        ListIterator { current: self.head.clone() }
    }

    /// The list without values.
    pub fn empty() -> (res: List<T>)
        ensures
            res@ == Seq::<T>::empty(),
    {
        List { head: RefCounter::new(ListNode::Empty), len: 0 }
    }

    fn push_front_rc(&self, rc_value: RefCounter<T>) -> (res: List<T>)
        requires
            self@.len() < usize::MAX,
        ensures
            res@ == seq![*rc_value] + self@,
    {
        proof {
            use_type_invariant(self);
        }
        List {
            head: RefCounter::new(
                ListNode::Value { value: rc_value, next_node: self.head.clone() },
            ),
            len: self.len + 1,
        }
    }

    /// The list with `value` in front of the others.
    pub fn push_front(&self, value: T) -> (res: List<T>)
        requires
            self@.len() < usize::MAX,
        ensures
            res@ == seq![value] + self@,
    {
        self.push_front_rc(RefCounter::new(value))
    }

    /// Whether the list has no values.
    pub fn is_empty(&self) -> (res: bool)
        ensures
            res == (self@.len() == 0),
    {
        self.length() == 0
    }

    /// The number of values.
    pub fn length(&self) -> (res: usize)
        ensures
            res == self@.len(),
    {
        proof {
            use_type_invariant(self);
        }
        self.len
    }

    /// The handle of the first value, and the list of the others; `None`
    /// for the list without values.
    pub fn pop_front_rc(&self) -> (res: Option<(RefCounter<T>, List<T>)>)
        ensures
            match res {
                Some((value, rest)) => self@.len() > 0 && *value == self@[0] && rest@
                    == self@.drop_first(),
                None => self@.len() == 0,
            },
    {
        proof {
            use_type_invariant(self);
        }
        match &*self.head {
            ListNode::Empty => None,
            ListNode::Value { value, next_node } => {
                proof {
                    assert((seq![**value] + next_node.items()).drop_first() =~= next_node.items());
                }
                Some((value.clone(), List { head: next_node.clone(), len: self.len - 1 }))
            },
        }
    }

    /// The first value, and the list of the others; `None` for the list
    /// without values.
    pub fn pop_front(&self) -> (res: Option<(&T, List<T>)>)
        ensures
            match res {
                Some((value, rest)) => self@.len() > 0 && *value == self@[0] && rest@
                    == self@.drop_first(),
                None => self@.len() == 0,
            },
    {
        proof {
            use_type_invariant(self);
        }
        match &*self.head {
            ListNode::Empty => None,
            ListNode::Value { value, next_node } => {
                proof {
                    assert((seq![**value] + next_node.items()).drop_first() =~= next_node.items());
                }
                Some((&**value, List { head: next_node.clone(), len: self.len - 1 }))
            },
        }
    }

    /// The first value; `None` for the list without values.
    pub fn front(&self) -> (res: Option<&T>)
        ensures
            match res {
                Some(value) => self@.len() > 0 && *value == self@[0],
                None => self@.len() == 0,
            },
    {
        match self.pop_front() {
            Some((e, _)) => Some(e),
            None => None,
        }
    }

    /// The list with the same values, the last first.
    pub fn reverse(&self) -> (res: List<T>)
        ensures
            res@ == self@.reverse(),
    {
        proof {
            use_type_invariant(self);
        }
        let mut node = self.head.clone();
        let mut last_node = RefCounter::new(ListNode::Empty);
        proof {
            assert(node.items().reverse() + last_node.items() =~= self@.reverse());
        }
        loop
            invariant
                node.items().reverse() + last_node.items() == self@.reverse(),
            ensures
                last_node.items() == self@.reverse(),
            decreases node.items().len(),
        {
            let current = node.clone();
            match &*current {
                ListNode::Empty => {
                    proof {
                        assert(node.items().reverse() + last_node.items() =~= last_node.items());
                    }
                    break ;
                },
                ListNode::Value { value, next_node } => {
                    let ghost done = last_node.items();
                    let new_node = ListNode::Value { value: value.clone(), next_node: last_node };
                    last_node = RefCounter::new(new_node);
                    node = next_node.clone();
                    proof {
                        let rest = next_node.items();
                        assert((seq![**value] + rest).reverse() =~= rest.reverse() + seq![**value]);
                        assert(rest.reverse() + (seq![**value] + done) =~= (rest.reverse()
                            + seq![**value]) + done);
                    }
                },
            }
        }
        proof {
            assert(self@.reverse().len() == self@.len());
        }
        List { head: last_node, len: self.len }
    }

    /// The two halves of the list: the first `length() / 2` values, and the
    /// others.
    pub fn split(&self) -> (res: (List<T>, List<T>))
        ensures
            res.0@ == self@.take(self@.len() as int / 2),
            res.1@ == self@.skip(self@.len() as int / 2),
    {
        let mut first = List::<T>::empty();
        let mut second = List::<T>::empty();
        let mut current = self.clone();
        let half = self.length() / 2;
        let other_half = self.length() - half;
        let mut i: usize = 0;
        while i < half
            invariant
                i <= half,
                half <= self@.len(),
                current@ == self@.skip(i as int),
                first@ == self@.take(i as int).reverse(),
            decreases half - i,
        {
            let (value_rc, new_list) = current.pop_front_rc().unwrap();
            first = first.push_front_rc(value_rc);
            current = new_list;
            proof {
                assert(self@.skip(i as int).drop_first() =~= self@.skip(i + 1));
                assert(seq![self@[i as int]] + self@.take(i as int).reverse() =~= self@.take(
                    i + 1,
                ).reverse());
            }
            i += 1;
        }
        let mut j: usize = 0;
        while j < other_half
            invariant
                j <= other_half,
                half + other_half == self@.len(),
                current@ == self@.skip(half + j),
                second@ == self@.subrange(half as int, half + j).reverse(),
            decreases other_half - j,
        {
            let (value_rc, new_list) = current.pop_front_rc().unwrap();
            second = second.push_front_rc(value_rc);
            current = new_list;
            proof {
                assert(self@.skip(half + j).drop_first() =~= self@.skip(half + j + 1));
                assert(seq![self@[half + j]] + self@.subrange(half as int, half + j).reverse()
                    =~= self@.subrange(half as int, half + j + 1).reverse());
            }
            j += 1;
        }
        proof {
            assert(self@.take(half as int).reverse().reverse() =~= self@.take(half as int));
            assert(self@.subrange(half as int, half + other_half).reverse().reverse()
                =~= self@.skip(half as int));
        }
        (first.reverse(), second.reverse())
    }
}

} // verus!
