use data_structure::ds::linked_list::ListNode;

fn chain(items: &[i32]) -> Option<Box<ListNode<i32>>> {
    if items.is_empty() {
        None
    } else {
        Some(ListNode::from_vec(items.to_vec()))
    }
}

fn items(chain: &Option<Box<ListNode<i32>>>) -> Vec<i32> {
    let mut out = Vec::new();
    let mut head = chain.as_deref();
    while let Some(node) = head {
        out.push(node.val);
        head = node.next.as_deref();
    }
    out
}

fn sorted(values: &[i32]) -> Vec<i32> {
    items(&ListNode::<i32>::sort(chain(values)))
}

#[test]
fn merge_of_two_ascending_chains() {
    let merged = ListNode::<i32>::merge(chain(&[1, 3, 5]), chain(&[2, 4]));
    assert_eq!(items(&merged), vec![1, 2, 3, 4, 5]);
    let merged = ListNode::<i32>::merge(chain(&[2, 4]), chain(&[1, 3, 5]));
    assert_eq!(items(&merged), vec![1, 2, 3, 4, 5]);
    let merged = ListNode::<i32>::merge(chain(&[1, 2]), chain(&[3, 4]));
    assert_eq!(items(&merged), vec![1, 2, 3, 4]);
    let merged = ListNode::<i32>::merge(chain(&[3, 4]), chain(&[1, 2]));
    assert_eq!(items(&merged), vec![1, 2, 3, 4]);
}

#[test]
fn merge_with_an_absent_chain_is_the_other_chain() {
    assert_eq!(items(&ListNode::<i32>::merge(None, chain(&[1, 2]))), vec![1, 2]);
    assert_eq!(items(&ListNode::<i32>::merge(chain(&[3, 1]), None)), vec![3, 1]);
    assert!(ListNode::<i32>::merge(None, None).is_none());
}

#[test]
fn merge_keeps_equal_values_of_both() {
    let merged = ListNode::<i32>::merge(chain(&[1, 2, 2]), chain(&[2, 2, 3]));
    assert_eq!(items(&merged), vec![1, 2, 2, 2, 2, 3]);
}

#[test]
fn merge_takes_the_smaller_first_value_at_every_step() {
    let merged = ListNode::<i32>::merge(chain(&[3, 0]), chain(&[3, 5]));
    assert_eq!(items(&merged), vec![3, 0, 3, 5]);
    let merged = ListNode::<i32>::merge(chain(&[5, 1]), chain(&[2, 9, 0]));
    assert_eq!(items(&merged), vec![2, 5, 1, 9, 0]);
}

#[test]
fn sort_puts_values_in_ascending_order() {
    assert_eq!(sorted(&[5, 2, 3, 1, 4]), vec![1, 2, 3, 4, 5]);
    assert_eq!(sorted(&[1, 5, 3, 2, 4]), vec![1, 2, 3, 4, 5]);
    assert_eq!(sorted(&[2, 1]), vec![1, 2]);
    assert_eq!(sorted(&[3, -1, 3, 0, -1, i32::MAX, i32::MIN]), vec![i32::MIN, -1, -1, 0, 3, 3, i32::MAX]);
}

#[test]
fn sort_of_nothing_or_one_value_gives_it_back() {
    assert!(ListNode::<i32>::sort(None).is_none());
    assert_eq!(sorted(&[7]), vec![7]);
}

#[test]
fn sort_is_the_merge_of_its_sorted_halves() {
    let values = [9, 4, 7, 1, 8, 2, 6];
    let whole = sorted(&values);
    for cut in 0..=values.len() {
        let left = ListNode::<i32>::sort(chain(&values[..cut]));
        let right = ListNode::<i32>::sort(chain(&values[cut..]));
        assert_eq!(items(&ListNode::<i32>::merge(left, right)), whole);
    }
}

#[test]
fn sort_twice_is_sort_once() {
    let once = ListNode::<i32>::sort(chain(&[3, 1, 2, 3, 0]));
    let expected = items(&once);
    let twice = ListNode::<i32>::sort(once);
    assert_eq!(items(&twice), expected);
    assert_eq!(expected, vec![0, 1, 2, 3, 3]);
}

#[test]
fn sort_does_not_depend_on_the_order_given() {
    let expected = vec![1, 2, 2, 3];
    assert_eq!(sorted(&[1, 2, 2, 3]), expected);
    assert_eq!(sorted(&[3, 2, 2, 1]), expected);
    assert_eq!(sorted(&[2, 3, 1, 2]), expected);
    assert_eq!(sorted(&[2, 1, 3, 2]), expected);
}

#[test]
fn sort_of_a_long_chain() {
    let values: Vec<i32> = (0..500).map(|i| (i * 7919) % 503 - 250).collect();
    let mut expected = values.clone();
    expected.sort();
    assert_eq!(sorted(&values), expected);
}

#[test]
fn sort_and_merge_take_any_ordered_values() {
    let words = ListNode::from_vec(vec!["pear", "apple", "fig", "apple"]);
    let sorted = ListNode::sort(Some(words)).unwrap();
    assert_eq!(sorted, ListNode::from_vec(vec!["apple", "apple", "fig", "pear"]));

    let left = ListNode::from_vec(vec![(1u8, 'b'), (2, 'a')]);
    let right = ListNode::from_vec(vec![(1u8, 'a'), (3, 'z')]);
    let merged = ListNode::merge(Some(left), Some(right)).unwrap();
    assert_eq!(merged, ListNode::from_vec(vec![(1, 'a'), (1, 'b'), (2, 'a'), (3, 'z')]));
}

#[test]
fn merge_prefers_the_left_chain_where_neither_value_is_smaller() {
    #[derive(Debug, Clone, PartialEq)]
    struct Tagged(i32, char);
    impl PartialOrd for Tagged {
        fn partial_cmp(&self, other: &Self) -> Option<std::cmp::Ordering> {
            self.0.partial_cmp(&other.0)
        }
    }
    let left = ListNode::from_vec(vec![Tagged(1, 'l'), Tagged(2, 'l')]);
    let right = ListNode::from_vec(vec![Tagged(1, 'r'), Tagged(2, 'r')]);
    let merged = ListNode::merge(Some(left), Some(right)).unwrap();
    let expected = vec![Tagged(1, 'l'), Tagged(1, 'r'), Tagged(2, 'l'), Tagged(2, 'r')];
    for (i, tagged) in expected.iter().enumerate() {
        assert_eq!(merged[i].1, tagged.1);
        assert_eq!(merged[i].0, tagged.0);
    }
}

#[test]
fn sort_keeps_the_order_of_values_that_compare_alike() {
    #[derive(Debug, Clone, PartialEq)]
    struct Keyed(i32, char);
    impl PartialOrd for Keyed {
        fn partial_cmp(&self, other: &Self) -> Option<std::cmp::Ordering> {
            self.0.partial_cmp(&other.0)
        }
    }
    let given = vec![Keyed(2, 'a'), Keyed(1, 'x'), Keyed(2, 'b'), Keyed(1, 'y'), Keyed(2, 'c')];
    let sorted = ListNode::sort(Some(ListNode::from_vec(given))).unwrap();
    let tags: Vec<char> = (0..5).map(|i| sorted[i].1).collect();
    assert_eq!(tags, vec!['x', 'y', 'a', 'b', 'c']);
}
