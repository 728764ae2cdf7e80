use linked_list::list::LinkedList;
use std::cmp::Ordering;

fn list_of(values: &[i32]) -> LinkedList<i32> {
    let mut list = LinkedList::new();
    for &v in values {
        list.add(v);
    }
    list
}

fn values_of<T: PartialOrd + Clone>(list: &LinkedList<T>) -> Vec<T> {
    let mut values = Vec::new();
    for i in 0..list.length() {
        values.push(list.get(i as i32).unwrap().clone());
    }
    values
}

#[test]
fn test_merge_linked_list_1() {
    let mut list_a = LinkedList::<i32>::new();
    let mut list_b = LinkedList::<i32>::new();
    let vec_a = vec![1, 3, 5, 7];
    let vec_b = vec![2, 4, 6, 8];
    let target_vec = vec![1, 2, 3, 4, 5, 6, 7, 8];

    for &v in &vec_a {
        list_a.add(v);
    }
    for &v in &vec_b {
        list_b.add(v);
    }
    let list_c = LinkedList::merge(list_a, list_b);
    for (i, &v) in target_vec.iter().enumerate() {
        assert_eq!(Some(&v), list_c.get(i as i32));
    }
}

#[test]
fn test_merge_linked_list_2() {
    let mut list_a = LinkedList::<i32>::new();
    let mut list_b = LinkedList::<i32>::new();
    let vec_a = vec![11, 33, 44, 88, 89, 90, 100];
    let vec_b = vec![1, 22, 30, 45];
    let target_vec = vec![1, 11, 22, 30, 33, 44, 45, 88, 89, 90, 100];

    for &v in &vec_a {
        list_a.add(v);
    }
    for &v in &vec_b {
        list_b.add(v);
    }
    let list_c = LinkedList::merge(list_a, list_b);
    for (i, &v) in target_vec.iter().enumerate() {
        assert_eq!(Some(&v), list_c.get(i as i32));
    }
}

#[test]
fn merge_has_no_element_past_the_last() {
    let merged = LinkedList::merge(list_of(&[1, 3, 5, 7]), list_of(&[2, 4, 6, 8]));
    assert_eq!(8, merged.length());
    assert_eq!(None, merged.get(8));
}

#[test]
fn merge_of_empty_and_list_is_the_list() {
    let merged = LinkedList::merge(list_of(&[]), list_of(&[5, 6]));
    assert_eq!(vec![5, 6], values_of(&merged));
}

#[test]
fn merge_of_list_and_empty_is_the_list() {
    let merged = LinkedList::merge(list_of(&[2, 2, 9]), list_of(&[]));
    assert_eq!(vec![2, 2, 9], values_of(&merged));
}

#[test]
fn merge_of_two_empty_lists_is_empty() {
    let merged = LinkedList::merge(list_of(&[]), list_of(&[]));
    assert_eq!(0, merged.length());
    assert_eq!(None, merged.get(0));
}

#[test]
fn merge_keeps_every_element() {
    let a = [-5, -5, 0, 3, 3, 3, 12];
    let b = [-7, -5, 3, 4, 12, 12];
    let merged = values_of(&LinkedList::merge(list_of(&a), list_of(&b)));
    let mut expected: Vec<i32> = a.iter().chain(b.iter()).copied().collect();
    expected.sort();
    let mut sorted = merged.clone();
    sorted.sort();
    assert_eq!(expected, sorted);
    assert_eq!(a.len() + b.len(), merged.len());
}

#[test]
fn merge_of_sorted_lists_is_sorted() {
    let a = [-5, -5, 0, 3, 3, 3, 12];
    let b = [-7, -5, 3, 4, 12, 12];
    let merged = values_of(&LinkedList::merge(list_of(&a), list_of(&b)));
    assert_eq!(vec![-7, -5, -5, -5, 0, 3, 3, 3, 3, 4, 12, 12, 12], merged);
    for pair in merged.windows(2) {
        assert!(pair[0] <= pair[1]);
    }
}

#[test]
fn merge_of_unsorted_lists_compares_the_fronts() {
    let merged = LinkedList::merge(list_of(&[3, 1]), list_of(&[2]));
    assert_eq!(vec![2, 3, 1], values_of(&merged));
    let merged = LinkedList::merge(list_of(&[5, 1, 4]), list_of(&[2, 6, 0]));
    assert_eq!(vec![2, 5, 1, 4, 6, 0], values_of(&merged));
}

/// A value that is ordered by its key alone, and remembers where it came from.
#[derive(Clone, Debug)]
struct Keyed {
    key: u8,
    origin: &'static str,
}

impl PartialEq for Keyed {
    fn eq(&self, other: &Keyed) -> bool {
        self.key == other.key
    }
}

impl PartialOrd for Keyed {
    fn partial_cmp(&self, other: &Keyed) -> Option<Ordering> {
        self.key.partial_cmp(&other.key)
    }
}

#[test]
fn merge_puts_the_first_list_first_on_ties() {
    let mut list_a = LinkedList::new();
    let mut list_b = LinkedList::new();
    for key in [1, 2, 2, 5] {
        list_a.add(Keyed { key, origin: "a" });
    }
    for key in [0, 2, 2, 5, 6] {
        list_b.add(Keyed { key, origin: "b" });
    }
    let merged = values_of(&LinkedList::merge(list_a, list_b));
    let seen: Vec<(u8, &str)> = merged.iter().map(|k| (k.key, k.origin)).collect();
    assert_eq!(
        vec![
            (0, "b"),
            (1, "a"),
            (2, "a"),
            (2, "a"),
            (2, "b"),
            (2, "b"),
            (5, "a"),
            (5, "b"),
            (6, "b"),
        ],
        seen
    );
}

/// A value that counts how often it has been cloned.
#[derive(Debug, PartialEq, PartialOrd)]
struct Copied {
    key: u8,
    times: u32,
}

impl Clone for Copied {
    fn clone(&self) -> Copied {
        Copied { key: self.key, times: self.times + 1 }
    }
}

#[test]
fn merge_clones_each_element_once() {
    let mut list_a = LinkedList::new();
    let mut list_b = LinkedList::new();
    list_a.add(Copied { key: 1, times: 0 });
    list_a.add(Copied { key: 4, times: 0 });
    list_b.add(Copied { key: 3, times: 0 });
    let merged = LinkedList::merge(list_a, list_b);
    assert_eq!(Some(&Copied { key: 1, times: 1 }), merged.get(0));
    assert_eq!(Some(&Copied { key: 3, times: 1 }), merged.get(1));
    assert_eq!(Some(&Copied { key: 4, times: 1 }), merged.get(2));
    assert_eq!(None, merged.get(3));
}

#[test]
fn merge_of_strings_orders_them_as_strings() {
    let mut list_a = LinkedList::new();
    let mut list_b = LinkedList::new();
    for s in ["apple", "cherry"] {
        list_a.add(s.to_string());
    }
    for s in ["banana", "cherry", "date"] {
        list_b.add(s.to_string());
    }
    let merged = LinkedList::merge(list_a, list_b);
    assert_eq!("apple, banana, cherry, cherry, date", merged.render());
}
