use linked_chain::node::Node;

fn chain_of(items: &[i32]) -> Node<i32> {
    let mut chain = Node::new(items[items.len() - 1]);
    for item in items[..items.len() - 1].iter().rev() {
        chain.insert(*item);
    }
    chain
}

fn items_of(chain: &Node<i32>) -> Vec<i32> {
    let mut items = Vec::new();
    let mut index = 0;
    while let Some(item) = chain.get(index) {
        items.push(item);
        index += 1;
    }
    assert_eq!(items.len(), chain.length());
    items
}

#[test]
fn new_chain_holds_one_element() {
    let chain = Node::new(7);
    assert_eq!(chain.length(), 1);
    assert_eq!(chain.get(0), Some(7));
    assert_eq!(chain.get(1), None);
}

#[test]
fn length_counts_every_insert() {
    let mut chain = Node::new(0u32);
    assert_eq!(chain.length(), 1);
    for n in 2..=50usize {
        chain.insert(n as u32);
        assert_eq!(chain.length(), n);
    }
}

#[test]
fn get_counts_from_the_latest_insert() {
    let mut chain = Node::new(10);
    for value in [20, 30, 40] {
        chain.insert(value);
    }
    assert_eq!(chain.get(0), Some(40));
    assert_eq!(chain.get(1), Some(30));
    assert_eq!(chain.get(2), Some(20));
    assert_eq!(chain.get(3), Some(10));
    assert_eq!(chain.get(4), None);
    assert_eq!(chain.get(usize::MAX), None);
}

#[test]
fn insert_moves_elements_that_cannot_be_copied_cheaply() {
    let mut chain = Node::new(String::from("a"));
    chain.insert(String::from("b"));
    chain.insert(String::from("c"));
    assert_eq!(chain.length(), 3);
    assert_eq!(chain.get_ref(0).map(|s| s.as_str()), Some("c"));
    assert_eq!(chain.get_ref(1).map(|s| s.as_str()), Some("b"));
    assert_eq!(chain.get_ref(2).map(|s| s.as_str()), Some("a"));
}

#[test]
fn pop_removes_the_head_only() {
    let mut chain = chain_of(&[5, 3, 2, 1]);
    chain.pop();
    assert_eq!(items_of(&chain), vec![3, 2, 1]);
    chain.pop();
    assert_eq!(items_of(&chain), vec![2, 1]);
    chain.pop();
    assert_eq!(items_of(&chain), vec![1]);
}

#[test]
fn pop_leaves_the_last_element() {
    let mut chain = Node::new(9);
    chain.pop();
    assert_eq!(chain.length(), 1);
    assert_eq!(chain.get(0), Some(9));
    chain.pop();
    assert_eq!(items_of(&chain), vec![9]);
}

#[test]
fn get_ref_reads_in_place() {
    let chain = chain_of(&[6, 2, 1]);
    assert_eq!(chain.get_ref(0), Some(&6));
    assert_eq!(chain.get_ref(1), Some(&2));
    assert_eq!(chain.get_ref(2), Some(&1));
    assert_eq!(chain.get_ref(3), None);
}

#[test]
fn get_mut_changes_one_element() {
    let mut chain = chain_of(&[3, 2, 1]);
    *chain.get_mut(1).unwrap() = 20;
    assert_eq!(items_of(&chain), vec![3, 20, 1]);
    *chain.get_mut(2).unwrap() += 4;
    assert_eq!(items_of(&chain), vec![3, 20, 5]);
    assert!(chain.get_mut(3).is_none());
    assert_eq!(items_of(&chain), vec![3, 20, 5]);
}

#[test]
fn map_keeps_length_and_order() {
    let mut chain = chain_of(&[4, 1, 3]);
    chain.map(|x| x * 10);
    assert_eq!(items_of(&chain), vec![40, 10, 30]);
}

#[test]
fn map_on_one_element() {
    let mut chain = Node::new(1);
    chain.map(|x| x - 1);
    assert_eq!(items_of(&chain), vec![0]);
}

#[test]
fn chained_maps_apply_one_after_the_other() {
    let mut chain = chain_of(&[6, 2, 1]);
    chain.map(|x| x + 2).map(|x| x * 2);
    assert_eq!(items_of(&chain), vec![16, 8, 6]);
    let mut fused = chain_of(&[6, 2, 1]);
    fused.map(|x| (x + 2) * 2);
    assert_eq!(items_of(&fused), items_of(&chain));
    let mut swapped = chain_of(&[6, 2, 1]);
    swapped.map(|x| x * 2).map(|x| x + 2);
    assert_eq!(items_of(&swapped), vec![14, 6, 4]);
}

#[test]
fn map_hands_back_the_same_chain() {
    let mut chain = chain_of(&[2, 1]);
    let same = chain.map(|x| x + 1);
    same.insert(9);
    assert_eq!(items_of(&chain), vec![9, 3, 2]);
}

#[test]
fn filter_keeps_accepted_elements_in_order() {
    let mut chain = chain_of(&[1, 2, 3, 4, 5, 6]);
    chain.filter(|x| x % 2 == 0);
    assert_eq!(items_of(&chain), vec![2, 4, 6]);
    assert_eq!(chain.length(), 3);
}

#[test]
fn filter_replaces_a_rejected_head() {
    let mut chain = chain_of(&[1, 3, 5, 6, 7, 8]);
    chain.filter(|x| x % 2 == 0);
    assert_eq!(items_of(&chain), vec![6, 8]);
}

#[test]
fn filter_drops_a_rejected_tail() {
    let mut chain = chain_of(&[2, 4, 5, 7]);
    chain.filter(|x| x % 2 == 0);
    assert_eq!(items_of(&chain), vec![2, 4]);
    assert_eq!(chain.get(2), None);
}

#[test]
fn filter_keeps_equal_elements() {
    let mut chain = chain_of(&[3, 1, 3, 2, 3]);
    chain.filter(|x| *x == 3);
    assert_eq!(items_of(&chain), vec![3, 3, 3]);
}

#[test]
fn filter_that_accepts_all_changes_nothing() {
    let mut chain = chain_of(&[3, 2, 1]);
    chain.filter(|_| true);
    assert_eq!(items_of(&chain), vec![3, 2, 1]);
}

#[test]
fn filter_that_rejects_all_changes_nothing() {
    let mut chain = chain_of(&[3, 2, 1]);
    chain.filter(|x| *x > 5);
    assert_eq!(items_of(&chain), vec![3, 2, 1]);
    let mut single = Node::new(1);
    single.filter(|_| false);
    assert_eq!(items_of(&single), vec![1]);
}

#[test]
fn filter_twice_is_filter_once() {
    let mut chain = chain_of(&[9, 4, 7, 1, 8, 2]);
    chain.filter(|x| *x > 3);
    let once = items_of(&chain);
    assert_eq!(once, vec![9, 4, 7, 8]);
    chain.filter(|x| *x > 3);
    assert_eq!(items_of(&chain), once);
    let mut none = chain_of(&[1, 2]);
    none.filter(|x| *x > 3).filter(|x| *x > 3);
    assert_eq!(items_of(&none), vec![1, 2]);
}

#[test]
fn filter_asks_once_for_each_element_head_first() {
    let asked = std::cell::RefCell::new(Vec::new());
    let mut chain = chain_of(&[1, 2, 3, 4]);
    chain.filter(|x| {
        asked.borrow_mut().push(*x);
        *x >= 3
    });
    assert_eq!(items_of(&chain), vec![3, 4]);
    assert_eq!(asked.into_inner(), vec![1, 2, 3, 4]);
}

#[test]
fn filter_hands_back_the_same_chain() {
    let mut chain = chain_of(&[5, 1, 6]);
    chain.filter(|x| *x > 2).map(|x| x + 1);
    assert_eq!(items_of(&chain), vec![6, 7]);
}

#[test]
fn walk_through() {
    let mut list = Node::new(1);
    assert_eq!(items_of(&list), vec![1]);
    list.insert(2);
    assert_eq!(items_of(&list), vec![2, 1]);
    list.insert(3);
    assert_eq!(items_of(&list), vec![3, 2, 1]);
    list.insert(5);
    assert_eq!(items_of(&list), vec![5, 3, 2, 1]);
    list.pop();
    assert_eq!(items_of(&list), vec![3, 2, 1]);
    assert_eq!(list.length(), 3);
    assert_eq!(list.get(0), Some(3));
    *list.get_mut(0).unwrap() = 6;
    assert_eq!(items_of(&list), vec![6, 2, 1]);
    assert_eq!(list.get(0), Some(6));
    list.map(|x| x + 2);
    assert_eq!(items_of(&list), vec![8, 4, 3]);
    list.map(|x| x * 2);
    assert_eq!(items_of(&list), vec![16, 8, 6]);
}

#[test]
fn index_past_the_end() {
    let chain = chain_of(&[6, 2, 1]);
    assert_eq!(chain.length(), 3);
    assert_eq!(chain.get(3), None);
    assert_eq!(chain.get(2), Some(1));
}

#[test]
fn debug_shows_every_cell() {
    let chain = chain_of(&[6, 2, 1]);
    assert_eq!(
        format!("{:?}", chain),
        "Node { next: Some(Node { next: Some(Node { next: None, data: 1 }), data: 2 }), data: 6 }"
    );
}

#[test]
fn clone_is_a_chain_of_its_own() {
    let mut chain = chain_of(&[3, 2, 1]);
    let copy = chain.clone();
    chain.map(|x| x * 10);
    chain.pop();
    assert_eq!(items_of(&chain), vec![20, 10]);
    assert_eq!(items_of(&copy), vec![3, 2, 1]);
    let single = Node::new(String::from("only"));
    assert_eq!(single.clone().get(0), Some(String::from("only")));
}

#[test]
fn long_chain_is_walked_to_its_end() {
    let mut chain = Node::new(0usize);
    for n in 1..2000usize {
        chain.insert(n);
    }
    assert_eq!(chain.length(), 2000);
    assert_eq!(chain.get(1999), Some(0));
    assert_eq!(chain.get(2000), None);
    chain.filter(|x| x % 1000 == 0);
    assert_eq!(chain.length(), 2);
    assert_eq!(chain.get(0), Some(1000));
    assert_eq!(chain.get(1), Some(0));
}
