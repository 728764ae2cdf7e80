use linked_list::list::LinkedList;
use linked_list::text::join;

#[test]
fn render_separates_by_comma_and_space() {
    let mut list = LinkedList::<String>::new();
    list.add("A".to_string());
    list.add("B".to_string());
    list.add("C".to_string());
    assert_eq!("A, B, C", list.render());
}

#[test]
fn render_of_empty_list_is_empty() {
    let list = LinkedList::<i32>::new();
    assert_eq!("", list.render());
}

#[test]
fn render_of_one_element_has_no_separator() {
    let mut list = LinkedList::<i32>::new();
    list.add(-7);
    assert_eq!("-7", list.render());
}

#[test]
fn render_of_numbers() {
    let mut list = LinkedList::<i32>::new();
    list.add(1);
    list.add(2);
    list.add(3);
    assert_eq!("1, 2, 3", list.render());
}

#[test]
fn render_keeps_empty_texts() {
    let mut list = LinkedList::<String>::new();
    list.add(String::new());
    list.add(String::new());
    list.add("x".to_string());
    assert_eq!(", , x", list.render());
}

#[test]
fn join_of_nothing_is_empty() {
    assert_eq!("", join(&Vec::new()));
}

#[test]
fn join_of_one_part_is_the_part() {
    assert_eq!("only", join(&vec!["only".to_string()]));
}

#[test]
fn join_of_several_parts() {
    let parts = vec!["a".to_string(), "bc".to_string(), "".to_string(), "d, e".to_string()];
    assert_eq!("a, bc, , d, e", join(&parts));
}
