use algokit::link_list::LinkList;
use algokit::vec_array::VecArray;

#[test]
fn test_link_list() {
    let mut list = LinkList::default();
    list.push(1);
    list.push(2);
    list.push(3);
    list.push(4);
    list.push(5);

    let v = list.iter();
    assert_eq!(v, vec![5, 4, 3, 2, 1]);
    assert_eq!(list.pop(), Some(5));
    assert_eq!(list.pop(), Some(4));
    assert_eq!(list.pop(), Some(3));
    assert_eq!(list.pop(), Some(2));
    assert_eq!(list.pop(), Some(1));
    assert_eq!(list.pop(), None);
    assert_eq!(list.pop(), None);
}

#[test]
fn link_list_test_link_list() {
    let mut list = LinkList::default();
    list.push(1);
    list.push(2);
    list.push(3);
    list.push(4);
    list.push(5);

    let v = list.iter();
    assert_eq!(v, vec![5, 4, 3, 2, 1]);
    assert_eq!(list.pop(), Some(5));
    assert_eq!(list.pop(), Some(4));
    assert_eq!(list.pop(), Some(3));
    assert_eq!(list.pop(), Some(2));
    assert_eq!(list.pop(), Some(1));
    assert_eq!(list.pop(), None);
    assert_eq!(list.pop(), None);
}

#[test]
fn link_list_empty() {
    let mut list: LinkList<u64> = LinkList::default();
    assert_eq!(list.pop(), None);
    assert_eq!(list.iter(), Vec::<u64>::new());
}

struct Foo;

impl Drop for Foo {
    fn drop(&mut self) {
        println!("Drop Foo");
    }
}

#[test]
fn test_vec_array_drop() {
    let mut arr = VecArray::<Foo, 5>::new();
    arr.push(Foo).unwrap();
    arr.push(Foo).unwrap();
    arr.push(Foo).unwrap();
}

#[test]
fn vec_array_full_rejects() {
    let mut arr = VecArray::<u32, 2>::new();
    assert!(arr.push(1).is_ok());
    assert!(arr.push(2).is_ok());
    assert!(arr.push(3).is_err());
    assert_eq!(arr.len(), 2);
    assert_eq!(*arr.get(0), 1);
    assert_eq!(*arr.get(1), 2);
}

#[test]
fn vec_array_pop_order() {
    let mut arr = VecArray::<u32, 5>::new();
    assert!(arr.pop().is_none());
    arr.push(1).unwrap();
    arr.push(2).unwrap();
    arr.push(3).unwrap();
    assert_eq!(arr.pop(), Some(3));
    assert_eq!(arr.pop(), Some(2));
    assert_eq!(arr.pop(), Some(1));
    assert_eq!(arr.pop(), None);
}

#[test]
fn vec_array_truncate_and_clear() {
    let mut arr = VecArray::<u32, 5>::new();
    for i in 0..5 {
        arr.push(i).unwrap();
    }
    arr.truncate(3);
    assert_eq!(arr.len(), 3);
    assert_eq!(*arr.get(2), 2);
    arr.truncate(4);
    assert_eq!(arr.len(), 3);
    arr.clear();
    assert_eq!(arr.len(), 0);
}
