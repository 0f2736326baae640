use sexpvm::ast::list::List;

#[test]
fn list_test_1() {
    let l = List::new();
    let a = List::cons(3, &l);
    let b = List::cons(2, &a);
    let c = List::cons(1, &b);

    assert_eq!(Some(&3), a.head());
    assert_eq!(Some(&2), b.head());
    assert_eq!(Some(&1), c.head());
}

#[test]
fn list_test_2() {
    let l = List::new().append(3).append(2).append(1);

    assert_eq!(Some(&3), l.tail().tail().head());
    assert_eq!(Some(&2), l.tail().head());
    assert_eq!(Some(&1), l.head());
}

#[test]
fn list_sharing_keeps_originals() {
    // Prepending never touches the original: two lists sharing a tail stay
    // independently iterable to their original lengths and contents.
    let base = List::new().append(3).append(2);
    let one = base.append(1);
    let zero = base.append(0);

    assert_eq!(2, base.len());
    assert_eq!(3, one.len());
    assert_eq!(3, zero.len());

    let mut it = base.iter();
    assert_eq!(Some(&2), it.next());
    assert_eq!(Some(&3), it.next());
    assert_eq!(None, it.next());

    let mut it = one.iter();
    assert_eq!(Some(&1), it.next());
    assert_eq!(Some(&2), it.next());
    assert_eq!(Some(&3), it.next());
    assert_eq!(None, it.next());

    let mut it = zero.iter();
    assert_eq!(Some(&0), it.next());
    assert_eq!(Some(&2), it.next());
    assert_eq!(Some(&3), it.next());
    assert_eq!(None, it.next());
}

#[test]
fn list_tail_tip_and_wrap() {
    let l = List::wrap(7);
    assert_eq!(Some(&7), l.head());
    assert_eq!(Some(&7), l.tail_tip());
    assert_eq!(1, l.len());

    let l = l.append(8).append(9);
    assert_eq!(Some(&9), l.head());
    assert_eq!(Some(&7), l.tail_tip());

    let c = l.copy();
    assert_eq!(Some(&9), c.head());
    assert_eq!(3, c.len());

    let e: List<i32> = List::new();
    assert_eq!(None, e.head());
    assert_eq!(None, e.tail_tip());
    assert_eq!(0, e.len());
    assert_eq!(None, e.tail().head());
}
