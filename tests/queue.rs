use linked_lists::fifth::List;

#[test]
fn fifth_basics() {
    let mut list = List::new();

    assert_eq!(list.pop_front(), None);

    list.push_back(1);
    list.push_back(2);
    list.push_back(3);

    assert_eq!(list.pop_front(), Some(1));
    assert_eq!(list.pop_front(), Some(2));

    list.push_back(4);
    list.push_back(5);

    assert_eq!(list.pop_front(), Some(3));
    assert_eq!(list.pop_front(), Some(4));
    assert_eq!(list.pop_front(), Some(5));
    assert_eq!(list.pop_front(), None);

    list.push_back(6);
    list.push_back(7);

    assert_eq!(list.pop_front(), Some(6));
    assert_eq!(list.pop_front(), Some(7));
    assert_eq!(list.pop_front(), None);
}

#[test]
fn into_iter() {
    let mut list = List::new();

    list.push_back(1);
    list.push_back(2);
    list.push_back(3);

    let mut iter = list.into_iter();
    assert_eq!(iter.next(), Some(1));
    assert_eq!(iter.next(), Some(2));
    assert_eq!(iter.next(), Some(3));
    assert_eq!(iter.next(), None);
}

#[test]
fn iter() {
    let mut list = List::new();

    list.push_back(1);
    list.push_back(2);
    list.push_back(3);

    let mut iter = list.iter();
    assert_eq!(iter.next(), Some(&1));
    assert_eq!(iter.next(), Some(&2));
    assert_eq!(iter.next(), Some(&3));
}

#[test]
fn iter_mut() {
    let mut list = List::new();

    list.push_back(1);
    list.push_back(2);
    list.push_back(3);

    let mut iter = list.iter_mut();
    iter.next().map(|value| {
        *value = 42;
    });
    assert_eq!(iter.next(), Some(&mut 2));
    assert_eq!(iter.next(), Some(&mut 3));

    let mut iter = list.iter();
    assert_eq!(iter.next(), Some(&42));
    assert_eq!(iter.next(), Some(&2));
    assert_eq!(iter.next(), Some(&3));
}

#[test]
fn fifth_peek() {
    let mut list = List::new();
    assert!(list.peek().is_none());
    assert!(list.peek_mut().is_none());

    list.push_back(1);
    list.push_back(2);
    list.push_back(3);

    assert_eq!(&*list.peek().unwrap(), &1);
    assert_eq!(&mut *list.peek_mut().unwrap(), &mut 1);
}
