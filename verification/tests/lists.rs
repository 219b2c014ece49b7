use datastructs::doubly::DoublyLinkedList;
use datastructs::linear::{LinearLinkedList, LinkedFunc, Node};

#[test]
fn list_push_items() {
    let mut list = DoublyLinkedList::<usize>::new();
    list.push_back(10);
    list.push_back(11);
    list.push_back(12);
    list.push_back(13);

    assert_eq!(list.pop_back(), Some(13));
    assert_eq!(list.pop_back(), Some(12));
    assert_eq!(list.pop_back(), Some(11));
    assert_eq!(list.pop_back(), Some(10));
    assert_eq!(list.pop_back(), None);
}

#[test]
fn list_pop_front_items() {
    let mut list = DoublyLinkedList::<usize>::new();
    list.push_back(10);
    list.push_back(11);
    list.push_back(12);
    list.push_back(13);

    assert_eq!(list.pop_front(), Some(10));
    assert_eq!(list.pop_front(), Some(11));
    assert_eq!(list.pop_front(), Some(12));
    assert_eq!(list.pop_front(), Some(13));
    assert_eq!(list.pop_front(), None);
}

#[test]
fn list_push_front_items() {
    let mut list = DoublyLinkedList::<usize>::new();
    list.push_front(10);
    list.push_front(11);
    list.push_front(12);
    list.push_front(13);

    assert_eq!(list.pop_back(), Some(10));
    assert_eq!(list.pop_back(), Some(11));
    assert_eq!(list.pop_back(), Some(12));
    assert_eq!(list.pop_back(), Some(13));
    assert_eq!(list.pop_back(), None);
}

#[test]
fn iterate_list() {
    let mut list = DoublyLinkedList::<usize>::new();
    list.push_back(10);
    list.push_back(11);
    list.push_back(12);
    list.push_back(13);

    let mut it = list.iter_mut();
    while let Some(item) = it.next() {
        println!("{item:?}");
    }
}

#[test]
fn iterate_drains_from_the_back() {
    let mut list = DoublyLinkedList::<i32>::new();
    list.push_back(1);
    list.push_back(2);
    let mut it = list.iter_mut();
    assert_eq!(it.next(), Some(2));
    assert_eq!(it.next(), Some(1));
    assert_eq!(it.next(), None);
    assert_eq!(list.pop_front(), None);
}

#[test]
fn mixed_ends() {
    let mut list = DoublyLinkedList::<i32>::new();
    list.push_front(2);
    list.push_back(3);
    list.push_front(1);
    assert_eq!(list.pop_front(), Some(1));
    assert_eq!(list.pop_back(), Some(3));
    assert_eq!(list.pop_back(), Some(2));
    assert_eq!(list.pop_back(), None);
}

#[test]
fn linear_insert_appends_at_the_end() {
    let mut lk = LinearLinkedList { root: Node { value: "a", next: None } };
    lk.insert("b");
    lk.insert("c");

    assert_eq!("a", lk.root.value);
    let second = lk.root.next.as_ref().unwrap();
    assert_eq!("b", second.value);
    let third = second.next.as_ref().unwrap();
    assert_eq!("c", third.value);
    assert!(third.next.is_none());
}
