use data_structure::ds::linked_list::ListNode;
use data_structure::ds::stack::Stack;
use data_structure::ds::vector::Vector;

#[test]
fn stack_new_holds_one_item() {
    let stack = Stack::new(1);
    assert_eq!(stack.len, 1);
    assert_eq!(stack.list, ListNode::new(1));
    assert_eq!(stack.peak(), 1);
}

#[test]
fn stack_from_vec_has_the_first_item_on_top() {
    let stack = Stack::from_vec(vec![1, 2, 3]);
    assert_eq!(stack.len, 3);
    assert_eq!(stack.list, ListNode::from_vec(vec![1, 2, 3]));
    assert_eq!(stack.peak(), 1);
}

#[test]
fn stack_pops_in_reverse_order_of_pushes() {
    let mut stack = Stack::new(1);
    stack.push(2);
    stack.push(3);
    assert_eq!(stack.len, 3);
    assert_eq!(stack.pop(), 3);
    assert_eq!(stack.pop(), 2);
    assert_eq!(stack.len, 1);
    assert_eq!(stack.peak(), 1);
}

#[test]
fn stack_can_be_emptied_and_filled_again() {
    let mut stack = Stack::from_vec(vec![4, 5]);
    assert_eq!(stack.pop(), 4);
    assert_eq!(stack.pop(), 5);
    assert_eq!(stack.len, 0);
    stack.push(6);
    stack.push(7);
    assert_eq!(stack.len, 2);
    assert_eq!(stack.pop(), 7);
    assert_eq!(stack.pop(), 6);
    assert_eq!(stack.len, 0);
}

#[test]
fn stack_clear_leaves_the_default_value() {
    let mut stack = Stack::from_vec(vec![1, 2, 3, 4, 5]);
    stack.clear();
    assert_eq!(stack.len, 1);
    assert_eq!(stack.list, ListNode::new(i32::default()));
    assert_eq!(stack.peak(), 0);
}

#[test]
fn stack_peak_leaves_the_stack() {
    let stack = Stack::from_vec(vec![1, 2, 3, 4, 5]);
    assert_eq!(stack.peak(), 1);
    assert_eq!(stack.len, 5);
    assert_eq!(stack.list, ListNode::from_vec(vec![1, 2, 3, 4, 5]));
}

#[test]
fn stack_equality_goes_by_count_and_items() {
    let mut a = Stack::from_vec(vec![2, 3]);
    a.push(1);
    assert!(a == Stack::from_vec(vec![1, 2, 3]));
    assert!(a != Stack::from_vec(vec![1, 2]));
    assert!(a != Stack::from_vec(vec![1, 2, 4]));
    let mut emptied = Stack::new(9);
    emptied.pop();
    let mut other = Stack::new(8);
    other.pop();
    assert!(emptied == other);
}

#[test]
fn vector_pops_the_newest_item_first() {
    let mut vector = Vector::new();
    assert_eq!(vector.pop(), None);
    for i in 0..10 {
        vector.push(i);
    }
    for i in (0..10).rev() {
        assert_eq!(vector.pop(), Some(i));
    }
    assert_eq!(vector.pop(), None);
}

#[test]
fn vector_grows_on_demand_and_by_hand() {
    let mut vector = Vector::new();
    vector.grow();
    vector.grow();
    vector.push(String::from("a"));
    vector.push(String::from("b"));
    vector.push(String::from("c"));
    assert_eq!(vector.pop(), Some(String::from("c")));
    vector.grow();
    assert_eq!(vector.pop(), Some(String::from("b")));
    assert_eq!(vector.pop(), Some(String::from("a")));
    assert_eq!(vector.pop(), None);
}
