use linked_lists::linked_list::LinkedList;

fn list_from<T: Clone>(v: &[T]) -> LinkedList<T> {
    LinkedList::from_vec(v.to_vec())
}

fn generate_test() -> LinkedList<i32> {
    list_from(&[0, 1, 2, 3, 4, 5, 6])
}

fn collect<T: Clone>(list: &LinkedList<T>) -> Vec<T> {
    let mut out = Vec::new();
    let mut it = list.iter();
    while let Some(x) = it.next() {
        out.push(x.clone());
    }
    out
}

fn check_links<T: Eq + std::fmt::Debug>(list: &LinkedList<T>) {
    let mut from_front: Vec<&T> = Vec::new();
    let mut it = list.iter();
    while let Some(x) = it.next() {
        from_front.push(x);
    }
    let mut from_back: Vec<&T> = Vec::new();
    let mut it = list.iter();
    while let Some(x) = it.next_back() {
        from_back.push(x);
    }
    from_back.reverse();
    assert_eq!(from_front, from_back);
}

#[test]
fn basic_front() {
    let mut list = LinkedList::new();

    assert_eq!(list.len(), 0);
    assert_eq!(list.pop_front(), None);
    assert_eq!(list.len(), 0);

    list.push_front(10);
    assert_eq!(list.len(), 1);
    assert_eq!(list.pop_front(), Some(10));
    assert_eq!(list.len(), 0);
    assert_eq!(list.pop_front(), None);
    assert_eq!(list.len(), 0);

    list.push_front(10);
    assert_eq!(list.len(), 1);
    list.push_front(20);
    assert_eq!(list.len(), 2);
    list.push_front(30);
    assert_eq!(list.len(), 3);
    assert_eq!(list.pop_front(), Some(30));
    assert_eq!(list.len(), 2);
    list.push_front(40);
    assert_eq!(list.len(), 3);
    assert_eq!(list.pop_front(), Some(40));
    assert_eq!(list.len(), 2);
    assert_eq!(list.pop_front(), Some(20));
    assert_eq!(list.len(), 1);
    assert_eq!(list.pop_front(), Some(10));
    assert_eq!(list.len(), 0);
    assert_eq!(list.pop_front(), None);
    assert_eq!(list.len(), 0);
    assert_eq!(list.pop_front(), None);
    assert_eq!(list.len(), 0);
}

#[test]
fn basic() {
    let mut m = LinkedList::new();
    assert_eq!(m.pop_front(), None);
    assert_eq!(m.pop_back(), None);
    assert_eq!(m.pop_front(), None);
    m.push_front(1);
    assert_eq!(m.pop_front(), Some(1));
    m.push_back(2);
    m.push_back(3);
    assert_eq!(m.len(), 2);
    assert_eq!(m.pop_front(), Some(2));
    assert_eq!(m.pop_front(), Some(3));
    assert_eq!(m.len(), 0);
    assert_eq!(m.pop_front(), None);
    m.push_back(1);
    m.push_back(3);
    m.push_back(5);
    m.push_back(7);
    assert_eq!(m.pop_front(), Some(1));

    let mut n = LinkedList::new();
    n.push_front(2);
    n.push_front(3);
    {
        assert_eq!(n.front().unwrap(), &3);
        let x = n.front_mut().unwrap();
        assert_eq!(*x, 3);
        *x = 0;
    }
    {
        assert_eq!(n.back().unwrap(), &2);
        let y = n.back_mut().unwrap();
        assert_eq!(*y, 2);
        *y = 1;
    }
    assert_eq!(n.pop_front(), Some(0));
    assert_eq!(n.pop_front(), Some(1));
}

#[test]
fn iterator() {
    let m = generate_test();
    let mut i = 0;
    let mut it = m.iter();
    while let Some(elt) = it.next() {
        assert_eq!(i as i32, *elt);
        i += 1;
    }
    let mut n = LinkedList::new();
    assert_eq!(n.iter().next(), None);
    n.push_front(4);
    let mut it = n.iter();
    assert_eq!(it.size_hint(), (1, Some(1)));
    assert_eq!(it.next().unwrap(), &4);
    assert_eq!(it.size_hint(), (0, Some(0)));
    assert_eq!(it.next(), None);
}

#[test]
fn iterator_double_end() {
    let mut n = LinkedList::new();
    assert_eq!(n.iter().next(), None);
    n.push_front(4);
    n.push_front(5);
    n.push_front(6);
    let mut it = n.iter();
    assert_eq!(it.size_hint(), (3, Some(3)));
    assert_eq!(it.next().unwrap(), &6);
    assert_eq!(it.size_hint(), (2, Some(2)));
    assert_eq!(it.next_back().unwrap(), &4);
    assert_eq!(it.size_hint(), (1, Some(1)));
    assert_eq!(it.next_back().unwrap(), &5);
    assert_eq!(it.next_back(), None);
    assert_eq!(it.next(), None);
}

#[test]
fn rev_iter() {
    let m = generate_test();
    let mut i = 0;
    let mut it = m.iter();
    while let Some(elt) = it.next_back() {
        assert_eq!(6 - i as i32, *elt);
        i += 1;
    }
    let mut n = LinkedList::new();
    assert_eq!(n.iter().next_back(), None);
    n.push_front(4);
    let mut it = n.iter();
    assert_eq!(it.size_hint(), (1, Some(1)));
    assert_eq!(it.next_back().unwrap(), &4);
    assert_eq!(it.size_hint(), (0, Some(0)));
    assert_eq!(it.next_back(), None);
}

#[test]
fn mut_iter() {
    let mut m = generate_test();
    let mut len = m.len();
    let mut i = 0;
    let mut it = m.iter_mut();
    while let Some(elt) = it.next() {
        assert_eq!(i as i32, *elt);
        len -= 1;
        i += 1;
    }
    assert_eq!(len, 0);
    let mut n = LinkedList::new();
    assert!(n.iter_mut().next().is_none());
    n.push_front(4);
    n.push_back(5);
    let mut it = n.iter_mut();
    assert_eq!(it.size_hint(), (2, Some(2)));
    assert!(it.next().is_some());
    assert!(it.next().is_some());
    assert_eq!(it.size_hint(), (0, Some(0)));
    assert!(it.next().is_none());
}

#[test]
fn iterator_mut_double_end() {
    let mut n = LinkedList::new();
    assert!(n.iter_mut().next_back().is_none());
    n.push_front(4);
    n.push_front(5);
    n.push_front(6);
    let mut it = n.iter_mut();
    assert_eq!(it.size_hint(), (3, Some(3)));
    assert_eq!(*it.next().unwrap(), 6);
    assert_eq!(it.size_hint(), (2, Some(2)));
    assert_eq!(*it.next_back().unwrap(), 4);
    assert_eq!(it.size_hint(), (1, Some(1)));
    assert_eq!(*it.next_back().unwrap(), 5);
    assert!(it.next_back().is_none());
    assert!(it.next().is_none());
}

#[test]
fn eq() {
    let mut n: LinkedList<u8> = list_from(&[]);
    let mut m = list_from(&[]);
    assert!(n.eq(&m));
    n.push_front(1);
    assert!(n.ne(&m));
    m.push_back(1);
    assert!(n.eq(&m));

    let n = list_from(&[2, 3, 4]);
    let m = list_from(&[1, 2, 3]);
    assert!(n.ne(&m));
}

#[test]
fn ord() {
    let n = list_from(&[]);
    let m = list_from(&[1, 2, 3]);
    assert!(n.lt(&m));
    assert!(m.gt(&n));
    assert!(n.le(&n));
    assert!(n.ge(&n));
}

#[test]
fn ord_nan() {
    let nan = 0.0f64 / 0.0;
    let n = list_from(&[nan]);
    let m = list_from(&[nan]);
    assert!(!(n.lt(&m)));
    assert!(!(n.gt(&m)));
    assert!(!(n.le(&m)));
    assert!(!(n.ge(&m)));

    let n = list_from(&[nan]);
    let one = list_from(&[1.0f64]);
    assert!(!(n.lt(&one)));
    assert!(!(n.gt(&one)));
    assert!(!(n.le(&one)));
    assert!(!(n.ge(&one)));

    let u = list_from(&[1.0f64, 2.0, nan]);
    let v = list_from(&[1.0f64, 2.0, 3.0]);
    assert!(!(u.lt(&v)));
    assert!(!(u.gt(&v)));
    assert!(!(u.le(&v)));
    assert!(!(u.ge(&v)));

    let s = list_from(&[1.0f64, 2.0, 4.0, 2.0]);
    let t = list_from(&[1.0f64, 2.0, 3.0, 2.0]);
    assert!(!(s.lt(&t)));
    assert!(s.gt(&one));
    assert!(!(s.le(&one)));
    assert!(s.ge(&one));
}

#[test]
fn cursor_move_peek() {
    let mut m: LinkedList<u32> = LinkedList::new();
    m.extend(vec![1, 2, 3, 4, 5, 6]);
    let mut cursor = m.cursor_mut();
    cursor.move_next();
    assert_eq!(cursor.current(), Some(&mut 1));
    assert_eq!(cursor.peek_next(), Some(&mut 2));
    assert_eq!(cursor.peek_prev(), None);
    assert_eq!(cursor.index(), Some(0));
    cursor.move_prev();
    assert_eq!(cursor.current(), None);
    assert_eq!(cursor.peek_next(), Some(&mut 1));
    assert_eq!(cursor.peek_prev(), Some(&mut 6));
    assert_eq!(cursor.index(), None);
    cursor.move_next();
    cursor.move_next();
    assert_eq!(cursor.current(), Some(&mut 2));
    assert_eq!(cursor.peek_next(), Some(&mut 3));
    assert_eq!(cursor.peek_prev(), Some(&mut 1));
    assert_eq!(cursor.index(), Some(1));

    let mut cursor = m.cursor_mut();
    cursor.move_prev();
    assert_eq!(cursor.current(), Some(&mut 6));
    assert_eq!(cursor.peek_next(), None);
    assert_eq!(cursor.peek_prev(), Some(&mut 5));
    assert_eq!(cursor.index(), Some(5));
    cursor.move_next();
    assert_eq!(cursor.current(), None);
    assert_eq!(cursor.peek_next(), Some(&mut 1));
    assert_eq!(cursor.peek_prev(), Some(&mut 6));
    assert_eq!(cursor.index(), None);
    cursor.move_prev();
    cursor.move_prev();
    assert_eq!(cursor.current(), Some(&mut 5));
    assert_eq!(cursor.peek_next(), Some(&mut 6));
    assert_eq!(cursor.peek_prev(), Some(&mut 4));
    assert_eq!(cursor.index(), Some(4));
}

#[test]
fn cursor_mut_insert() {
    let mut m: LinkedList<u32> = LinkedList::new();
    m.extend(vec![1, 2, 3, 4, 5, 6]);
    let mut cursor = m.cursor_mut();
    cursor.move_next();
    cursor.splice_before(LinkedList::from_vec(vec![7]));
    cursor.splice_after(LinkedList::from_vec(vec![8]));
    assert_eq!(collect(&m), &[7, 1, 8, 2, 3, 4, 5, 6]);
    let mut cursor = m.cursor_mut();
    cursor.move_next();
    cursor.move_prev();
    cursor.splice_before(LinkedList::from_vec(vec![9]));
    cursor.splice_after(LinkedList::from_vec(vec![10]));
    check_links(&m);
    assert_eq!(collect(&m), &[10, 7, 1, 8, 2, 3, 4, 5, 6, 9]);

    let mut cursor = m.cursor_mut();
    cursor.move_next();
    cursor.move_prev();
    assert_eq!(cursor.remove_current(), None);
    cursor.move_next();
    cursor.move_next();
    assert_eq!(cursor.remove_current(), Some(7));
    cursor.move_prev();
    cursor.move_prev();
    cursor.move_prev();
    assert_eq!(cursor.remove_current(), Some(9));
    cursor.move_next();
    assert_eq!(cursor.remove_current(), Some(10));
    check_links(&m);
    assert_eq!(collect(&m), &[1, 8, 2, 3, 4, 5, 6]);

    let mut cursor = m.cursor_mut();
    cursor.move_next();
    let mut p: LinkedList<u32> = LinkedList::new();
    p.extend(vec![100, 101, 102, 103]);
    let mut q: LinkedList<u32> = LinkedList::new();
    q.extend(vec![200, 201, 202, 203]);
    cursor.splice_after(p);
    cursor.splice_before(q);
    check_links(&m);
    assert_eq!(
        collect(&m),
        &[200, 201, 202, 203, 1, 100, 101, 102, 103, 8, 2, 3, 4, 5, 6]
    );
    assert_eq!(m.len(), 15);
    let mut cursor = m.cursor_mut();
    cursor.move_next();
    cursor.move_prev();
    let tmp = cursor.split_before();
    assert_eq!(m.len(), 0);
    assert_eq!(m.into_vec(), Vec::<u32>::new());
    m = tmp;
    assert_eq!(m.len(), 15);
    let mut cursor = m.cursor_mut();
    cursor.move_next();
    cursor.move_next();
    cursor.move_next();
    cursor.move_next();
    cursor.move_next();
    cursor.move_next();
    cursor.move_next();
    let tmp = cursor.split_after();
    assert_eq!(tmp.len(), 8);
    assert_eq!(m.len(), 7);
    assert_eq!(tmp.into_vec(), &[102, 103, 8, 2, 3, 4, 5, 6]);
    check_links(&m);
    assert_eq!(collect(&m), &[200, 201, 202, 203, 1, 100, 101]);
}
