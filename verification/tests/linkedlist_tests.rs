use latch::linkedlist::LinkedList;

#[test]
fn it_works() {
    let mut list = LinkedList::new();
    list.push_back(100);
    list.push_back(200);
    list.push_back(300);
    list.push_front(3);
    list.push_front(2);
    list.push_front(1);

    //1 2 3 100 200 300
    assert_eq!(Some(&1), list.get(0));
    assert_eq!(Some(&2), list.get(1));
    assert_eq!(Some(&3), list.get(2));
    assert_eq!(Some(&100), list.get(3));
    assert_eq!(Some(&200), list.get(4));
    assert_eq!(Some(&300), list.get(5));
    assert_eq!(None, list.get(6));

    assert_eq!(Some(1), list.pop_front());
    assert_eq!(Some(2), list.pop_front());
    assert_eq!(Some(3), list.pop_front());
    assert_eq!(Some(100), list.pop_front());
    assert_eq!(Some(200), list.pop_front());
    assert_eq!(Some(300), list.pop_front());
    assert_eq!(0, list.length());
    assert!(list.is_empty());
    println!("{:?}", list);
}

#[test]
#[allow(dead_code, unused_variables, unused_mut, path_statements)]
fn test_box() {
    struct A {
        data: String,
        data2: i32,
    }

    impl A {
        fn test(&self) {}
    }

    let mut a = Box::new(A {
        data: "data".to_owned(),
        data2: 123,
    });
    // A field can be moved out of a box through `*`.
    let b = (*a).data;
    a.data2;
}

#[test]
fn pop_back_takes_the_last_element() {
    let mut list = LinkedList::new();
    assert_eq!(None::<i32>, list.pop_back());
    list.push_back(1);
    list.push_back(2);
    list.push_front(0);
    assert_eq!(3, list.length());
    assert_eq!(Some(2), list.pop_back());
    assert_eq!(2, list.length());
    assert_eq!(Some(&0), list.get(0));
    assert_eq!(Some(&1), list.get(1));
    assert_eq!(None, list.get(2));
    assert_eq!(Some(1), list.pop_back());
    assert_eq!(Some(0), list.pop_back());
    assert_eq!(None, list.pop_back());
    assert!(list.is_empty());
}

#[test]
fn empty_list() {
    let mut list: LinkedList<String> = LinkedList::new();
    assert_eq!(0, list.length());
    assert!(list.is_empty());
    assert_eq!(None, list.get(0));
    assert_eq!(None, list.pop_front());
    assert_eq!(0, list.length());
}

#[test]
fn push_front_and_push_back_keep_the_order() {
    let mut list = LinkedList::new();
    list.push_front("b".to_owned());
    list.push_back("c".to_owned());
    list.push_front("a".to_owned());
    assert!(!list.is_empty());
    assert_eq!(3, list.length());
    assert_eq!(Some(&"a".to_owned()), list.get(0));
    assert_eq!(Some(&"b".to_owned()), list.get(1));
    assert_eq!(Some(&"c".to_owned()), list.get(2));
    assert_eq!(None, list.get(3));
    assert_eq!(None, list.get(usize::MAX));
    assert_eq!(Some("a".to_owned()), list.pop_front());
    assert_eq!(Some("c".to_owned()), list.pop_back());
    assert_eq!(1, list.length());
}
