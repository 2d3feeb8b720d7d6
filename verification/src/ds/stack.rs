//! A LIFO stack kept in a linked list: the top of the stack is the list's
//! entry node.
//!
//! A list always has a node, a stack may be empty. So the stack counts its
//! items in `len`, and its items are the first `len` values of the list. What
//! the list holds behind them stands for no item.

use crate::ds::linked_list::ListNode;
use vstd::prelude::*;
use vstd::std_specs::cmp::PartialEqSpec;
use vstd::std_specs::cmp::PartialEqSpecImpl;

verus! {

/// A stack of `len` items, the top first.
#[derive(Debug)]
pub struct Stack<T> {
    pub list: Box<ListNode<T>>,
    pub len: usize,
}

impl<T> View for Stack<T> {
    type V = Seq<T>;

    /// The items of the stack, the top first.
    open spec fn view(&self) -> Seq<T> {
        if self.len <= self.list@.len() {
            self.list@.take(self.len as int)
        } else {
            self.list@
        }
    }
}

impl<T> Stack<T> {
    /// The list holds every item that the stack counts.
    pub open spec fn wf(&self) -> bool {
        self.len <= self.list@.len()
    }

    /// A stack that holds `val` alone.
    pub fn new(val: T) -> (stack: Self)
        ensures
            stack.wf(),
            stack@ == seq![val],
            stack.len == 1,
    {
        let stack = Stack { list: ListNode::new(val), len: 1 };
        assert(stack@ =~= seq![val]);
        stack
    }

    /// A stack of the items of `vec`, of which the first is the top.
    pub fn from_vec(vec: Vec<T>) -> (stack: Self)
        where T: Clone
        requires
            vec@.len() > 0,
        ensures
            stack.wf(),
            stack@ == vec@,
            stack.len == vec@.len(),
    {
        let len: usize = vec.len();
        let ghost items = vec@;
        let stack = Stack { list: ListNode::from_vec(vec), len };
        assert(stack@ =~= items);
        stack
    }

    /// Takes the top item off the stack and hands it out.
    pub fn pop(&mut self) -> (val: T)
        where T: Default
        requires
            old(self).wf(),
            old(self).len > 0,
        ensures
            final(self).wf(),
            val == old(self)@[0],
            final(self)@ == old(self)@.drop_first(),
            final(self).len == old(self).len - 1,
    {
        let ghost nodes = self.list@;
        let popped = self.list.pop();
        self.len -= 1;
        proof {
            if nodes.len() > 1 {
                assert(self.list@.take(self.len as int) =~= nodes.take(old(self).len as int).drop_first());
            } else {
                assert(self@ =~= old(self)@.drop_first());
            }
        }
        popped.unwrap()
    }

    /// Puts `val` on top of the stack.
    pub fn push(&mut self, val: T)
        where T: Clone
        requires
            old(self).wf(),
            old(self).len < usize::MAX,
        ensures
            final(self).wf(),
            final(self)@ == seq![val] + old(self)@,
            final(self).len == old(self).len + 1,
    {
        self.list.push(val);
        self.len += 1;
        assert(self@ =~= seq![val] + old(self)@);
    }

    /// Empties the stack and leaves one item on it, the default value.
    pub fn clear(&mut self)
        where T: Default
        ensures
            final(self).wf(),
            final(self).len == 1,
            final(self)@.len() == 1,
            call_ensures(T::default, (), final(self)@[0]),
    {
        let val = T::default();
        self.list = ListNode::new(val);
        self.len = 1;
        assert(self@ =~= seq![val]);
    }

    /// A clone of the top item, which stays on the stack.
    ///
    /// On an empty stack this is a clone of whatever the entry node holds.
    pub fn peak(&self) -> (val: T)
        where T: Clone
        ensures
            cloned::<T>(self.list@[0], val),
            self.wf() && self.len > 0 ==> cloned::<T>(self@[0], val),
    {
        self.list.val.clone()
    }
}

impl<T: Clone> Clone for Stack<T> {
    /// A stack that counts as many items, on a copy of the list.
    fn clone(&self) -> (res: Self)
        ensures
            res.len == self.len,
            res.list@.len() == self.list@.len(),
            forall|i: int|
                0 <= i < self.list@.len() ==> cloned::<T>(self.list@[i], #[trigger] res.list@[i]),
    {
        Stack { list: self.list.copy(), len: self.len }
    }
}

impl<T: PartialEq + Clone + Copy> PartialEq for Stack<T> {
    /// Two stacks are equal when they count the same number of items and
    /// hold equal items at every place.
    fn eq(&self, other: &Self) -> (equal: bool) {
        if self.len != other.len {
            return false;
        }
        let ghost a = self@;
        let ghost b = other@;
        let mut head: &ListNode<T> = &*self.list;
        let mut other_head: &ListNode<T> = &*other.list;
        let mut i: usize = 0;
        while i < self.len
            invariant
                self.len == other.len,
                a == self@,
                b == other@,
                0 <= i <= self.len,
                i < self.list@.len(),
                i < other.list@.len(),
                head@ == self.list@.subrange(i as int, self.list@.len() as int),
                other_head@ == other.list@.subrange(i as int, other.list@.len() as int),
                T::obeys_eq_spec() ==> forall|j: int|
                    0 <= j < i ==> (#[trigger] self.list@[j]).eq_spec(&other.list@[j]),
            decreases self.len - i,
        {
            let ghost here = head@;
            let ghost there = other_head@;
            assert(head.val == self.list@[i as int] && other_head.val == other.list@[i as int]) by {
                assert(head.val == here[0]);
                assert(other_head.val == there[0]);
            }
            if head.val != other_head.val {
                assert(T::obeys_eq_spec() ==> !a[i as int].eq_spec(&b[i as int]));
                return false;
            }
            match (&head.next, &other_head.next) {
                (Some(node), Some(other_node)) => {
                    assert(node@ =~= here.subrange(1, here.len() as int));
                    assert(other_node@ =~= there.subrange(1, there.len() as int));
                    head = &**node;
                    other_head = &**other_node;
                },
                (None, None) => {
                    assert(here.len() == 1 && there.len() == 1);
                    return true;
                },
                _ => {
                    assert(here.len() != there.len());
                    return i + 1 >= self.len;
                },
            }
            i += 1;
            proof {
                assert(head@ =~= self.list@.subrange(i as int, self.list@.len() as int));
                assert(other_head@ =~= other.list@.subrange(i as int, other.list@.len() as int));
            }
        }
        true
    }
}

impl<T: PartialEq + Clone + Copy> PartialEqSpecImpl for Stack<T> {
    open spec fn obeys_eq_spec() -> bool {
        T::obeys_eq_spec()
    }

    open spec fn eq_spec(&self, other: &Self) -> bool {
        &&& self.len == other.len
        &&& self@.len() == other@.len()
        &&& forall|i: int| 0 <= i < self@.len() ==> (#[trigger] self@[i]).eq_spec(&other@[i])
    }
}

} // verus!
