//! A singly linked list in which every node owns its successor.
//!
//! A list always has at least one node: the entry node is the list. Contracts
//! are stated over the list's view, the sequence of its values from the entry
//! node to the tail.

use crate::ds::sorting::{
    ascending, first_half, is_ascending, is_total_order, lemma_ascending_sorts,
    lemma_merge_sorted_ascending, less, merge_sorted, merged, order_is_specified,
};
use vstd::prelude::*;
use vstd::seq_lib::lemma_multiset_commutative;
use vstd::std_specs::cmp::PartialEqSpec;
use vstd::std_specs::cmp::PartialEqSpecImpl;

verus! {

/// One node of a chain: a value and the rest of the chain it owns.
#[derive(Debug)]
pub struct ListNode<T> {
    pub val: T,
    pub next: Option<Box<ListNode<T>>>,
}

/// What `insert` reports for an index behind the end of the list.
pub const INDEX_OUT_OF_RANGE: &'static str = "Index out of range";

/// What `delete` and `find` report when no node behind the entry matches.
pub const NODE_NOT_FOUND: &'static str = "Node not found";

/// The values held by an optional chain, in order; empty where there is none.
pub open spec fn chain_view<T>(chain: Option<Box<ListNode<T>>>) -> Seq<T>
    decreases chain,
{
    match chain {
        None => Seq::empty(),
        Some(node) => seq![node.val] + chain_view(node.next),
    }
}

impl<T> View for ListNode<T> {
    type V = Seq<T>;

    open spec fn view(&self) -> Seq<T> {
        seq![self.val] + chain_view(self.next)
    }
}

/// `i` is the first position behind the entry node at which `items` holds a
/// value equal to `val`. The entry node's own value, at position 0, is never
/// looked at.
pub open spec fn is_first_match<T: PartialEq>(items: Seq<T>, val: T, i: int) -> bool {
    &&& 1 <= i < items.len()
    &&& items[i].eq_spec(&val)
    &&& forall|j: int| 1 <= j < i ==> !(#[trigger] items[j]).eq_spec(&val)
}

/// Some position behind the entry node holds a value equal to `val`.
pub open spec fn has_match<T: PartialEq>(items: Seq<T>, val: T) -> bool {
    exists|i: int| 1 <= i < items.len() && (#[trigger] items[i]).eq_spec(&val)
}

/// Where part `j` begins when `n` items are cut into `k` near-equal parts:
/// every part has `n / k` items and each of the first `n % k` has one more.
pub open spec fn part_start(n: int, k: int, j: int) -> int {
    j * (n / k) + if j < n % k { j } else { n % k }
}

/// The number of items in part `j` of such a cut.
pub open spec fn part_len(n: int, k: int, j: int) -> int {
    n / k + if j < n % k { 1int } else { 0int }
}

impl<T> ListNode<T> {
    /// A chain of one node that holds `val`.
    pub fn new(val: T) -> (list: Box<Self>)
        ensures
            list@ == seq![val],
            list.val == val,
            list.next.is_none(),
    {
        let list = Box::new(ListNode { val, next: None });
        assert(list@ =~= seq![val]);
        list
    }

    /// A chain that holds the items of `l`, in their order.
    pub fn from_vec(l: Vec<T>) -> (list: Box<Self>)
        where T: Clone
        requires
            l@.len() > 0,
        ensures
            list@ == l@,
            list@.len() == l@.len(),
            forall|i: int| 0 <= i < l@.len() ==> list@[i] == l@[i],
    {
        let ghost items = l@;
        let mut l = l;
        let last = l.pop().unwrap();
        let mut list = ListNode::new(last);
        while l.len() > 0
            invariant
                l@.len() < items.len(),
                l@ == items.subrange(0, l@.len() as int),
                list@ == items.subrange(l@.len() as int, items.len() as int),
            decreases l@.len(),
        {
            let ghost built = list@;
            let val = l.pop().unwrap();
            list = Box::new(ListNode { val, next: Some(list) });
            assert(list@ =~= seq![val] + built);
            assert(list@ =~= items.subrange(l@.len() as int, items.len() as int));
        }
        assert(list@ =~= items);
        list
    }

    /// The number of nodes, the entry node included.
    pub fn len(&mut self) -> (count: i32)
        requires
            old(self)@.len() <= i32::MAX,
        ensures
            count == old(self)@.len(),
            *final(self) == *old(self),
    {
        let mut head: &ListNode<T> = &*self;
        let mut count: i32 = 0;
        loop
            invariant_except_break
                count + head@.len() == old(self)@.len(),
            invariant
                0 <= count,
                old(self)@.len() <= i32::MAX,
            ensures
                count == old(self)@.len(),
            decreases head@.len(),
        {
            match &head.next {
                None => {
                    count += 1;
                    break;
                },
                Some(node) => {
                    count += 1;
                    head = &**node;
                },
            }
        }
        count
    }

    /// Puts `val` in front: the entry node takes `val`, and a new node behind
    /// it takes the entry's former value and successors.
    pub fn push(&mut self, val: T)
        ensures
            final(self)@ == seq![val] + old(self)@,
            final(self)@.len() == old(self)@.len() + 1,
            final(self)@[0] == val,
    {
        let mut moved = val;
        std::mem::swap(&mut self.val, &mut moved);
        let rest = self.next.take();
        self.next = Some(Box::new(ListNode { val: moved, next: rest }));
    }

    /// Appends `val` behind the tail.
    pub fn push_back(&mut self, val: T)
        ensures
            final(self)@ == old(self)@.push(val),
            final(self)@.len() == old(self)@.len() + 1,
            final(self)@.last() == val,
    {
        let mut head = self;
        loop
            invariant_except_break
                final(head)@ == head@.push(val) ==> final(self)@ == old(self)@.push(val),
            ensures
                final(self)@ == old(self)@.push(val),
            decreases head@.len(),
        {
            if head.next.is_none() {
                let ghost before = head@;
                head.next = Some(ListNode::new(val));
                assert(head@ =~= before.push(val));
                break;
            }
            match &mut head.next {
                Some(node) => {
                    head = &mut **node;
                },
                None => {
                    break;
                },
            }
        }
    }

    /// Puts `val` at position `index`, moving what stood there one place back.
    ///
    /// Any index up to the length is accepted, the length itself appends. A
    /// larger one is refused and the list stays as it was.
    pub fn insert(&mut self, index: usize, val: T) -> (res: Result<(), &'static str>)
        ensures
            index <= old(self)@.len() ==> res.is_ok() && final(self)@ == old(self)@.insert(
                index as int,
                val,
            ),
            index <= old(self)@.len() ==> final(self)@.len() == old(self)@.len() + 1,
            index <= old(self)@.len() ==> final(self)@[index as int] == val,
            index > old(self)@.len() ==> res == Err::<(), &'static str>(INDEX_OUT_OF_RANGE)
                && *final(self) == *old(self),
    {
        if index == 0 {
            self.push(val);
            assert(self@ =~= old(self)@.insert(0, val));
            return Ok(());
        }
        let ghost items = self@;
        let mut head = self;
        let mut i: usize = 0;
        while i < index - 1
            invariant
                0 <= i <= index - 1,
                i < items.len(),
                items == old(self)@,
                head@ == items.subrange(i as int, items.len() as int),
                *final(head) == *head ==> *final(self) == *old(self),
                index <= items.len() && final(head)@ == head@.insert(index - i, val)
                    ==> final(self)@ == items.insert(index as int, val),
            decreases index - 1 - i,
        {
            let ghost here = head@;
            match &mut head.next {
                Some(node) => {
                    head = &mut **node;
                },
                None => {
                    assert(here.len() == 1);
                    return Err(INDEX_OUT_OF_RANGE);
                },
            }
            i += 1;
            proof {
                assert(head@ =~= here.subrange(1, here.len() as int));
                assert(head@ =~= items.subrange(i as int, items.len() as int));
                assert(index <= items.len() ==> seq![here[0]] + head@.insert(index - i, val)
                    =~= here.insert(index - i + 1, val));
            }
        }
        let ghost here = head@;
        let tempnode = Box::new(ListNode { val, next: head.next.take() });
        head.next = Some(tempnode);
        assert(head@ =~= here.insert(1, val));
        Ok(())
    }

    /// Removes the first node behind the entry whose value equals `val`.
    ///
    /// The entry node's own value is never compared, so it is never removed.
    /// Where no node behind it matches, the list stays as it was.
    pub fn delete(&mut self, val: T) -> (res: Result<(), &'static str>)
        where T: PartialEq
        ensures
            T::obeys_eq_spec() ==> (res.is_ok() <==> has_match(old(self)@, val)),
            res.is_ok() ==> exists|i: int|
                1 <= i < old(self)@.len() && final(self)@ == #[trigger] old(self)@.remove(i) && (
                T::obeys_eq_spec() ==> is_first_match(old(self)@, val, i)),
            res.is_ok() ==> final(self)@.len() == old(self)@.len() - 1,
            res.is_err() ==> res == Err::<(), &'static str>(NODE_NOT_FOUND) && *final(self)
                == *old(self),
    {
        let ghost items = self@;
        let ghost mut i: int = 0;
        let mut head = self;
        loop
            invariant
                0 <= i < items.len(),
                items == old(self)@,
                head@ == items.subrange(i, items.len() as int),
                T::obeys_eq_spec() ==> forall|j: int| 1 <= j <= i ==> !(#[trigger] items[j]).eq_spec(&val),
                *final(head) == *head ==> *final(self) == *old(self),
                final(self)@ == items.subrange(0, i) + final(head)@,
            decreases head@.len(),
        {
            let ghost here = head@;
            let found = match &head.next {
                None => {
                    assert(here.len() == 1);
                    return Err(NODE_NOT_FOUND);
                },
                Some(node) => node.val == val,
            };
            assert(here.len() > 1);
            assert(here[1] == items[i + 1]);
            if found {
                let removed = head.next.take();
                match removed {
                    Some(mut node) => {
                        head.next = node.next.take();
                    },
                    None => {},
                }
                assert(head@ =~= here.remove(1));
                assert(items.subrange(0, i) + here.remove(1) =~= items.remove(i + 1));
                return Ok(());
            }
            match &mut head.next {
                Some(node) => {
                    head = &mut **node;
                },
                None => {
                    return Err(NODE_NOT_FOUND);
                },
            }
            proof {
                i = i + 1;
                assert(head@ =~= here.subrange(1, here.len() as int));
                assert(head@ =~= items.subrange(i, items.len() as int));
                assert(items.subrange(0, i - 1) + (seq![here[0]] + final(head)@)
                    =~= items.subrange(0, i) + final(head)@);
            }
        }
    }

    /// The first node behind the entry whose value equals `val`, with all that
    /// follows it.
    ///
    /// The entry node's own value is never compared. Nothing is copied: the
    /// node handed out is the one in the list.
    pub fn find(&mut self, val: T) -> (res: Result<&Box<Self>, &'static str>)
        where T: PartialEq
        ensures
            *final(self) == *old(self),
            T::obeys_eq_spec() ==> (res.is_ok() <==> has_match(old(self)@, val)),
            res matches Ok(node) ==> exists|i: int|
                1 <= i < old(self)@.len() && node@ == #[trigger] old(self)@.subrange(
                    i,
                    old(self)@.len() as int,
                ) && (T::obeys_eq_spec() ==> is_first_match(old(self)@, val, i)),
            res matches Err(e) ==> e == NODE_NOT_FOUND,
    {
        let ghost items = self@;
        let ghost mut i: int = 0;
        let mut head: &ListNode<T> = &*self;
        loop
            invariant
                0 <= i < items.len(),
                items == old(self)@,
                head@ == items.subrange(i, items.len() as int),
                T::obeys_eq_spec() ==> forall|j: int| 1 <= j <= i ==> !(#[trigger] items[j]).eq_spec(&val),
            decreases head@.len(),
        {
            let ghost here = head@;
            match &head.next {
                None => {
                    assert(here.len() == 1);
                    return Err(NODE_NOT_FOUND);
                },
                Some(node) => {
                    assert(node@ =~= here.subrange(1, here.len() as int));
                    assert(node@ =~= items.subrange(i + 1, items.len() as int));
                    assert(node.val == node@[0]);
                    if node.val == val {
                        return Ok(node);
                    }
                    head = &**node;
                },
            }
            proof {
                i = i + 1;
            }
        }
    }

    /// Whether a node other than the tail holds a value equal to `val`.
    ///
    /// The scan stops at the tail without comparing it, so a value that only
    /// the last node holds is not reported.
    pub fn contains(&self, val: T) -> (found: bool)
        where T: PartialEq
        ensures
            T::obeys_eq_spec() ==> (found <==> exists|i: int|
                0 <= i < self@.len() - 1 && (#[trigger] self@[i]).eq_spec(&val)),
    {
        let ghost mut i: int = 0;
        let mut head = self;
        loop
            invariant
                0 <= i < self@.len(),
                head@ == self@.subrange(i, self@.len() as int),
                T::obeys_eq_spec() ==> forall|j: int| 0 <= j < i ==> !(#[trigger] self@[j]).eq_spec(&val),
            ensures
                T::obeys_eq_spec() ==> forall|j: int|
                    0 <= j < self@.len() - 1 ==> !(#[trigger] self@[j]).eq_spec(&val),
            decreases head@.len(),
        {
            let ghost here = head@;
            match &head.next {
                None => {
                    assert(here.len() == 1);
                    break;
                },
                Some(node) => {
                    assert(head.val == here[0]);
                    if head.val == val {
                        return true;
                    }
                    assert(node@ =~= here.subrange(1, here.len() as int));
                    head = &**node;
                },
            }
            proof {
                i = i + 1;
                assert(head@ =~= self@.subrange(i, self@.len() as int));
            }
        }
        false
    }

    /// Removes the entry's value and hands it out.
    ///
    /// The successor's value and successors move up into the entry node. A
    /// list of one node keeps its node, which then holds the default value
    /// in place of the one handed out: a list never has fewer than one node.
    pub fn pop(&mut self) -> (res: Option<T>)
        where T: Default
        ensures
            res == Some(old(self)@[0]),
            old(self)@.len() > 1 ==> final(self)@ == old(self)@.drop_first(),
            old(self)@.len() > 1 ==> final(self)@.len() == old(self)@.len() - 1,
            old(self)@.len() == 1 ==> final(self)@.len() == 1 && call_ensures(
                T::default,
                (),
                final(self)@[0],
            ),
    {
        match self.next.take() {
            None => {
                let mut taken = T::default();
                std::mem::swap(&mut self.val, &mut taken);
                Some(taken)
            },
            Some(mut oldhead) => {
                let ghost rest = oldhead@;
                std::mem::swap(&mut self.val, &mut oldhead.val);
                self.next = oldhead.next.take();
                assert(self@ =~= rest);
                assert(rest =~= old(self)@.drop_first());
                Some(oldhead.val)
            },
        }
    }

    /// Turns the order of the values round, in place.
    pub fn reverse(&mut self)
        where T: Copy
        ensures
            final(self)@ == old(self)@.reverse(),
    {
        let ghost items = self@;
        let mut prev: Option<Box<ListNode<T>>> = None;
        let mut current = Some(Box::new(ListNode { val: self.val, next: self.next.take() }));
        assert(chain_view(current) =~= items);
        loop
            invariant
                chain_view(prev).len() + chain_view(current).len() == items.len(),
                chain_view(current) == items.subrange(
                    chain_view(prev).len() as int,
                    items.len() as int,
                ),
                chain_view(prev) == items.subrange(0, chain_view(prev).len() as int).reverse(),
            ensures
                chain_view(prev) == items.reverse(),
            decreases chain_view(current).len(),
        {
            let ghost done = chain_view(prev);
            let ghost todo = chain_view(current);
            match current {
                None => {
                    assert(items.subrange(0, items.len() as int) =~= items);
                    break;
                },
                Some(mut boxed_node) => {
                    let next = boxed_node.next.take();
                    boxed_node.next = prev;
                    prev = Some(boxed_node);
                    current = next;
                    assert(chain_view(current) =~= todo.subrange(1, todo.len() as int));
                    assert(chain_view(current) =~= items.subrange(
                        done.len() as int + 1,
                        items.len() as int,
                    ));
                    assert(chain_view(prev) =~= seq![todo[0]] + done);
                    assert(seq![todo[0]] + done =~= items.subrange(
                        0,
                        done.len() as int + 1,
                    ).reverse());
                },
            }
        }
        match prev {
            Some(mut new_head) => {
                self.val = new_head.val;
                self.next = new_head.next.take();
                assert(self@ =~= items.reverse());
            },
            None => {},
        }
    }

    /// A list of the same length whose values are clones of this one's, in
    /// the same order. It shares no node with this list.
    pub fn copy(&self) -> (res: Box<ListNode<T>>)
        where T: Clone
        ensures
            res@.len() == self@.len(),
            forall|i: int| 0 <= i < self@.len() ==> cloned::<T>(self@[i], #[trigger] res@[i]),
    {
        let first = self.val.clone();
        let ghost mut copied: Seq<T> = seq![first];
        let mut res = Box::new(ListNode { val: first, next: None });
        let mut head = &self.next;
        let mut tail = &mut res.next;
        loop
            invariant_except_break
                *tail == None::<Box<ListNode<T>>>,
                after_borrow(res)@ == copied + chain_view(*final(tail)),
                0 < copied.len() <= self@.len(),
                chain_view(*head) == self@.subrange(copied.len() as int, self@.len() as int),
                forall|i: int| 0 <= i < copied.len() ==> cloned::<T>(self@[i], #[trigger] copied[i]),
            ensures
                after_borrow(res)@.len() == self@.len(),
                forall|i: int|
                    0 <= i < self@.len() ==> cloned::<T>(self@[i], #[trigger] after_borrow(res)@[i]),
            decreases chain_view(*head).len(),
        {
            let ghost todo = chain_view(*head);
            match head {
                None => {
                    assert(copied + chain_view(*tail) =~= copied);
                    break;
                },
                Some(node) => {
                    let val = node.val.clone();
                    assert(node.val == self@[copied.len() as int]) by {
                        assert(node.val == todo[0]);
                    }
                    *tail = Some(Box::new(ListNode { val, next: None }));
                    match tail {
                        Some(new_node) => {
                            tail = &mut new_node.next;
                        },
                        None => {
                            break;
                        },
                    }
                    head = &node.next;
                    proof {
                        assert(chain_view(*head) =~= todo.drop_first());
                        assert((copied + seq![val]) + chain_view(*final(tail)) =~= copied + (
                        seq![val] + chain_view(*final(tail))));
                        copied = copied + seq![val];
                        assert(chain_view(*head) =~= self@.subrange(
                            copied.len() as int,
                            self@.len() as int,
                        ));
                    }
                },
            }
        }
        res
    }

    /// Merges two chains into one by relinking their nodes.
    ///
    /// The result is the stable merge of the two: of two ascending chains it
    /// is the ascending chain of all their values, and where a chain is
    /// absent it is the other one.
    pub fn merge(l1: Option<Box<ListNode<T>>>, l2: Option<Box<ListNode<T>>>) -> (res: Option<
        Box<ListNode<T>>,
    >)
        where T: PartialOrd
        ensures
            order_is_specified::<T>() ==> chain_view(res) == merged(chain_view(l1), chain_view(l2)),
            chain_view(res).to_multiset() == chain_view(l1).to_multiset().add(
                chain_view(l2).to_multiset(),
            ),
            l1.is_none() ==> res == l2,
            l2.is_none() ==> res == l1,
    {
        let ghost a = chain_view(l1);
        let ghost b = chain_view(l2);
        let ghost all = a.to_multiset().add(b.to_multiset());
        let ghost mut done: Seq<T> = Seq::empty();
        let mut left = l1;
        let mut right = l2;
        let mut result: Option<Box<ListNode<T>>> = None;
        let mut tail = &mut result;
        proof {
            assert(done + merged(a, b) =~= merged(a, b));
            assert(done + a =~= a);
            lemma_multiset_commutative(a, b);
        }
        loop
            invariant_except_break
                *tail == None::<Box<ListNode<T>>>,
                chain_view(after_borrow(result)) == done + chain_view(*final(tail)),
                order_is_specified::<T>() ==> done + merged(chain_view(left), chain_view(right))
                    == merged(a, b),
                (done + chain_view(left) + chain_view(right)).to_multiset() == all,
                done.len() == 0 ==> left == l1 && right == l2,
                done.len() == 0 ==> after_borrow(result) == *final(tail),
                done.len() > 0 ==> l1.is_some() && l2.is_some(),
            ensures
                order_is_specified::<T>() ==> chain_view(after_borrow(result)) == merged(a, b),
                chain_view(after_borrow(result)).to_multiset() == all,
                l1.is_none() ==> after_borrow(result) == l2,
                l2.is_none() ==> after_borrow(result) == l1,
            decreases chain_view(left).len() + chain_view(right).len(),
        {
            let ghost lv = chain_view(left);
            let ghost rv = chain_view(right);
            if left.is_none() {
                assert(done + lv + rv =~= done + rv);
                *tail = right;
                break;
            }
            if right.is_none() {
                assert(done + lv + rv =~= done + lv);
                *tail = left;
                break;
            }
            let take_right = match (&left, &right) {
                (Some(x), Some(y)) => y.val < x.val,
                _ => false,
            };
            assert(order_is_specified::<T>() ==> (take_right <==> less(rv[0], lv[0])));
            if take_right {
                *tail = right.take();
                match tail {
                    Some(node) => {
                        right = node.next.take();
                        tail = &mut node.next;
                    },
                    None => {
                        break;
                    },
                }
                proof {
                    assert(chain_view(right) =~= rv.drop_first());
                    assert((done + seq![rv[0]]) + chain_view(*final(tail)) =~= done + (seq![rv[0]]
                        + chain_view(*final(tail))));
                    assert(order_is_specified::<T>() ==> (done + seq![rv[0]]) + merged(
                        lv,
                        rv.drop_first(),
                    ) =~= done + merged(lv, rv));
                    lemma_moved_in_front(done, lv, rv);
                    done = done + seq![rv[0]];
                }
            } else {
                *tail = left.take();
                match tail {
                    Some(node) => {
                        left = node.next.take();
                        tail = &mut node.next;
                    },
                    None => {
                        break;
                    },
                }
                proof {
                    assert(chain_view(left) =~= lv.drop_first());
                    assert((done + seq![lv[0]]) + chain_view(*final(tail)) =~= done + (seq![lv[0]]
                        + chain_view(*final(tail))));
                    assert(order_is_specified::<T>() ==> (done + seq![lv[0]]) + merged(
                        lv.drop_first(),
                        rv,
                    ) =~= done + merged(lv, rv));
                    assert((done + seq![lv[0]]) + lv.drop_first() + rv =~= done + lv + rv);
                    done = done + seq![lv[0]];
                }
            }
        }
        result
    }

    /// Cuts a chain into `k` contiguous parts of near-equal length, in order.
    ///
    /// Part `j` holds the items from `part_start(n, k, j)` up to
    /// `part_start(n, k, j + 1)` of the `n` items given. The nodes are
    /// relinked, none is made. A negative `k` gives no parts at all.
    pub fn split_list(head: Option<Box<ListNode<T>>>, k: i32) -> (parts: Vec<Option<Box<ListNode<T>>>>)
        requires
            k != 0,
            chain_view(head).len() <= i32::MAX,
        ensures
            k < 0 ==> parts@.len() == 0,
            k > 0 ==> parts@.len() == k,
            forall|j: int|
                0 <= j < parts@.len() ==> #[trigger] chain_view(parts@[j]) == chain_view(
                    head,
                ).subrange(
                    part_start(chain_view(head).len() as int, k as int, j),
                    part_start(chain_view(head).len() as int, k as int, j + 1),
                ),
            forall|j: int|
                0 <= j < parts@.len() ==> (#[trigger] chain_view(parts@[j])).len() == part_len(
                    chain_view(head).len() as int,
                    k as int,
                    j,
                ),
    {
        let mut parts: Vec<Option<Box<ListNode<T>>>> = Vec::new();
        if k < 0 {
            return parts;
        }
        let length: i32 = Self::chain_len(&head);
        let base_size: i32 = length / k;
        let mut extra: i32 = length % k;
        let ghost items = chain_view(head);
        let ghost n = length as int;
        let ghost kk = k as int;
        let mut current = head;
        let mut done: i32 = 0;
        proof {
            lemma_part_bounds(n, kk, 0);
            assert(items.subrange(0, n) =~= items);
        }
        while done < k
            invariant
                0 < k,
                0 <= done <= k,
                n == items.len(),
                kk == k,
                0 <= n <= i32::MAX,
                base_size == n / kk,
                extra == if done < n % kk { n % kk - done } else { 0 },
                0 <= part_start(n, kk, done as int) <= n,
                chain_view(current) == items.subrange(part_start(n, kk, done as int), n),
                parts@.len() == done,
                forall|j: int|
                    0 <= j < done ==> #[trigger] chain_view(parts@[j]) == items.subrange(
                        part_start(n, kk, j),
                        part_start(n, kk, j + 1),
                    ),
            decreases k - done,
        {
            proof {
                lemma_part_bounds(n, kk, done as int);
            }
            let ghost start = part_start(n, kk, done as int);
            let size: i32 = base_size + if extra > 0 { 1 } else { 0 };
            let mut part_size: i32 = size;
            let mut part: Option<Box<ListNode<T>>> = None;
            let mut tail = &mut part;
            while part_size > 0
                invariant
                    0 <= part_size <= size,
                    start + size <= n,
                    0 <= start,
                    n == items.len(),
                    *tail == None::<Box<ListNode<T>>>,
                    chain_view(current) == items.subrange(start + size - part_size, n),
                    chain_view(after_borrow(part)) == items.subrange(
                        start,
                        start + size - part_size,
                    ) + chain_view(*final(tail)),
                decreases part_size,
            {
                let ghost at = start + size - part_size;
                let ghost target = *final(tail);
                assert(chain_view(current).len() == n - at);
                *tail = current.take();
                match tail {
                    Some(node) => {
                        assert(seq![node.val] + chain_view(node.next) == items.subrange(at, n));
                        assert(node.val == items.subrange(at, n)[0]);
                        assert(chain_view(node.next) =~= items.subrange(at, n).subrange(
                            1,
                            n - at,
                        ));
                        current = node.next.take();
                        assert(chain_view(current) =~= items.subrange(at + 1, n));
                        tail = &mut node.next;
                        assert(chain_view(target) == seq![items[at]] + chain_view(*final(tail)));
                        assert(items.subrange(start, at) + (seq![items[at]] + chain_view(
                            *final(tail),
                        )) =~= items.subrange(start, at + 1) + chain_view(*final(tail)));
                    },
                    None => {},
                }
                part_size -= 1;
            }
            parts.push(part);
            if extra > 0 {
                extra -= 1;
            }
            done += 1;
        }
        proof {
            assert forall|j: int| 0 <= j < parts@.len() implies (#[trigger] chain_view(
                parts@[j],
            )).len() == part_len(n, kk, j) by {
                lemma_part_bounds(n, kk, j);
            }
        }
        parts
    }

    /// The number of nodes of an optional chain.
    fn chain_len(chain: &Option<Box<ListNode<T>>>) -> (count: i32)
        requires
            chain_view(*chain).len() <= i32::MAX,
        ensures
            count == chain_view(*chain).len(),
    {
        let mut count: i32 = 0;
        let mut current = chain;
        loop
            invariant
                0 <= count,
                count + chain_view(*current).len() == chain_view(*chain).len(),
                chain_view(*chain).len() <= i32::MAX,
            ensures
                count == chain_view(*chain).len(),
            decreases chain_view(*current).len(),
        {
            match current {
                Some(node) => {
                    count += 1;
                    current = &node.next;
                },
                None => {
                    break;
                },
            }
        }
        count
    }

    /// Sorts a chain by merge sort: the chain is cut in two halves, each half
    /// is sorted, and the two are merged. The nodes are relinked, none is
    /// made.
    ///
    /// Where `<` is a total order on the values, the result is the chain's
    /// values in ascending order. Values of which neither is less than the
    /// other stay in the order in which they came.
    pub fn sort(head: Option<Box<ListNode<T>>>) -> (res: Option<Box<ListNode<T>>>)
        where T: PartialOrd
        requires
            chain_view(head).len() <= i32::MAX,
        ensures
            order_is_specified::<T>() ==> chain_view(res) == merge_sorted(chain_view(head)),
            is_total_order::<T>() ==> chain_view(res) == ascending(chain_view(head))
                && is_ascending(chain_view(res)),
            chain_view(res).to_multiset() == chain_view(head).to_multiset(),
            chain_view(head).len() <= 1 ==> res == head,
        decreases chain_view(head).len(),
    {
        let ghost items = chain_view(head);
        proof {
            if is_total_order::<T>() {
                lemma_merge_sorted_ascending(items);
                lemma_ascending_sorts(items);
            }
        }
        let short = match &head {
            None => true,
            Some(node) => {
                assert(items.len() == 1 + chain_view(node.next).len());
                assert(node.next.is_none() <==> chain_view(node.next).len() == 0) by {
                    reveal_with_fuel(chain_view, 2);
                }
                node.next.is_none()
            },
        };
        if short {
            return head;
        }
        let mut parts = Self::split_list(head, 2);
        let ghost n = items.len() as int;
        let ghost cut = first_half(n);
        proof {
            lemma_part_bounds(n, 2, 0);
            lemma_part_bounds(n, 2, 1);
            assert(part_start(n, 2, 1) == cut);
            assert(part_start(n, 2, 2) == n);
            assert(items.subrange(0, cut) + items.subrange(cut, n) =~= items);
            lemma_multiset_commutative(items.subrange(0, cut), items.subrange(cut, n));
        }
        let right = parts.pop().unwrap();
        let left = parts.pop().unwrap();
        let left_sorted = Self::sort(left);
        let right_sorted = Self::sort(right);
        Self::merge(left_sorted, right_sorted)
    }
}

impl<T> std::ops::Index<usize> for ListNode<T> {
    type Output = T;

    /// The value at position `index`, counted from the entry node.
    fn index(&self, index: usize) -> (output: &T)
        ensures
            *output == self@[index as int],
    {
        let mut head = self;
        let mut i: usize = 0;
        while i < index
            invariant
                0 <= i <= index < self@.len(),
                head@ == self@.subrange(i as int, self@.len() as int),
            decreases index - i,
        {
            let ghost here = head@;
            assert(here.len() > 1);
            let node = head.next.as_ref().unwrap();
            assert(node@ =~= here.subrange(1, here.len() as int));
            head = &**node;
            i += 1;
            assert(head@ =~= self@.subrange(i as int, self@.len() as int));
        }
        assert(head.val == head@[0]);
        &head.val
    }
}

impl<T> vstd::std_specs::core::IndexSpecImpl<usize> for ListNode<T> {
    open spec fn index_req(&self, index: &usize) -> bool {
        *index < self@.len()
    }
}

impl<T> std::ops::IndexMut<usize> for ListNode<T> {
    /// The place of the value at position `index`, for writing.
    fn index_mut(&mut self, index: usize) -> (output: &mut T)
        requires
            index < old(self)@.len(),
        ensures
            *output == old(self)@[index as int],
            final(self)@ == old(self)@.update(index as int, *final(output)),
    {
        let ghost items = self@;
        let mut head = self;
        let mut i: usize = 0;
        while i < index
            invariant
                0 <= i <= index < items.len(),
                items == old(self)@,
                head@ == items.subrange(i as int, items.len() as int),
                final(self)@ == items.subrange(0, i as int) + final(head)@,
            decreases index - i,
        {
            let ghost here = head@;
            assert(here.len() > 1);
            let node = head.next.as_mut().unwrap();
            head = &mut **node;
            i += 1;
            proof {
                assert(head@ =~= here.subrange(1, here.len() as int));
                assert(head@ =~= items.subrange(i as int, items.len() as int));
                assert(items.subrange(0, i - 1) + (seq![here[0]] + final(head)@)
                    =~= items.subrange(0, i as int) + final(head)@);
            }
        }
        let ghost here = head@;
        assert(head.val == here[0]);
        let output = &mut head.val;
        assert(items.subrange(0, i as int) + (seq![*final(output)] + here.subrange(
            1,
            here.len() as int,
        )) =~= items.update(index as int, *final(output)));
        output
    }
}

impl<T: PartialEq> PartialEq for ListNode<T> {
    /// Two lists are equal when they have the same length and hold equal
    /// values at every position. Where the nodes lie does not matter.
    fn eq(&self, other: &Self) -> (equal: bool) {
        let ghost mut i: int = 0;
        let mut head = self;
        let mut other_head = other;
        loop
            invariant
                0 <= i < self@.len(),
                i < other@.len(),
                head@ == self@.subrange(i, self@.len() as int),
                other_head@ == other@.subrange(i, other@.len() as int),
                T::obeys_eq_spec() ==> forall|j: int|
                    0 <= j < i ==> (#[trigger] self@[j]).eq_spec(&other@[j]),
            decreases head@.len(),
        {
            let ghost here = head@;
            let ghost there = other_head@;
            assert(head.val == self@[i] && other_head.val == other@[i]) by {
                assert(head.val == here[0]);
                assert(other_head.val == there[0]);
            }
            if head.val != other_head.val {
                return false;
            }
            match (&head.next, &other_head.next) {
                (Some(node), Some(other_node)) => {
                    assert(node@ =~= here.subrange(1, here.len() as int));
                    assert(other_node@ =~= there.subrange(1, there.len() as int));
                    head = &**node;
                    other_head = &**other_node;
                },
                (None, None) => {
                    assert(here.len() == 1 && there.len() == 1);
                    return true;
                },
                _ => {
                    assert(here.len() != there.len());
                    return false;
                },
            }
            proof {
                i = i + 1;
                assert(head@ =~= self@.subrange(i, self@.len() as int));
                assert(other_head@ =~= other@.subrange(i, other@.len() as int));
            }
        }
    }
}

impl<T: PartialEq> PartialEqSpecImpl for ListNode<T> {
    open spec fn obeys_eq_spec() -> bool {
        T::obeys_eq_spec()
    }

    open spec fn eq_spec(&self, other: &Self) -> bool {
        &&& self@.len() == other@.len()
        &&& forall|i: int| 0 <= i < self@.len() ==> (#[trigger] self@[i]).eq_spec(&other@[i])
    }
}

impl<T: Clone> Clone for ListNode<T> {
    /// A deep copy: see [`ListNode::copy`].
    fn clone(&self) -> (res: Self)
        ensures
            res@.len() == self@.len(),
            forall|i: int| 0 <= i < self@.len() ==> cloned::<T>(self@[i], #[trigger] res@[i]),
    {
        *self.copy()
    }
}

/// Turning a sequence round twice gives the sequence back, so two calls of
/// `reverse` leave a list as it was.
pub proof fn lemma_reverse_twice<T>(items: Seq<T>)
    ensures
        items.reverse().reverse() == items,
        items.reverse().len() == items.len(),
{
    assert(items.reverse().reverse() =~= items);
}

/// Parts follow one another without a gap, each has `n / k` or `n / k + 1`
/// items, and together the `k` parts hold all `n`.
pub proof fn lemma_part_bounds(n: int, k: int, j: int)
    requires
        0 <= n,
        0 < k,
        0 <= j < k,
    ensures
        part_start(n, k, 0) == 0,
        part_start(n, k, k) == n,
        part_start(n, k, j + 1) == part_start(n, k, j) + part_len(n, k, j),
        0 <= part_start(n, k, j) <= part_start(n, k, j + 1) <= n,
        n / k <= part_len(n, k, j) <= n / k + 1,
        part_len(n, k, j) == n / k + 1 <==> j < n % k,
{
    let b = n / k;
    let r = n % k;
    vstd::arithmetic::div_mod::lemma_fundamental_div_mod(n, k);
    vstd::arithmetic::div_mod::lemma_mod_bound(n, k);
    assert(0 <= b) by (nonlinear_arith)
        requires
            0 <= n,
            0 < k,
            b == n / k,
    ;
    assert((j + 1) * b == j * b + b) by (nonlinear_arith);
    assert(0 * b == 0);
    assert(0 <= j * b) by (nonlinear_arith)
        requires
            0 <= j,
            0 <= b,
    ;
    assert((j + 1) * b <= k * b) by (nonlinear_arith)
        requires
            j + 1 <= k,
            0 <= b,
    ;
}

/// Moving the first value of `right` behind `done` keeps the values that the
/// three sequences hold together.
proof fn lemma_moved_in_front<T>(done: Seq<T>, left: Seq<T>, right: Seq<T>)
    requires
        right.len() > 0,
    ensures
        ((done + seq![right[0]]) + left + right.drop_first()).to_multiset() == (done + left
            + right).to_multiset(),
{
    broadcast use vstd::multiset::group_multiset_axioms;

    let x = seq![right[0]];
    let rest = right.drop_first();
    assert(right =~= x + rest);
    lemma_multiset_commutative(done + x, left + rest);
    lemma_multiset_commutative(done, x);
    lemma_multiset_commutative(left, rest);
    lemma_multiset_commutative(done, left + right);
    lemma_multiset_commutative(left, right);
    lemma_multiset_commutative(x, rest);
    assert((done + x) + left + rest =~= (done + x) + (left + rest));
    assert(done + left + right =~= done + (left + right));
    assert(((done + x) + (left + rest)).to_multiset() =~= (done + (left + right)).to_multiset());
}

} // verus!
