use pwasm_utils::ref_list::RefList;

#[test]
fn order() {
    let mut list = RefList::<u32>::new();
    let item10 = list.push(10);
    let item20 = list.push(20);
    let item30 = list.push(30);

    assert_eq!(item10.order(&list), Some(0usize));
    assert_eq!(item20.order(&list), Some(1));
    assert_eq!(item30.order(&list), Some(2));

    assert_eq!(*list.read(&item10).value(), 10);
    assert_eq!(*list.read(&item20).value(), 20);
    assert_eq!(*list.read(&item30).value(), 30);
}

#[test]
fn delete() {
    let mut list = RefList::<u32>::new();
    let item10 = list.push(10);
    let item20 = list.push(20);
    let item30 = list.push(30);

    list.begin_delete().push(1).done(&mut list);

    assert_eq!(item10.order(&list), Some(0));
    assert_eq!(item30.order(&list), Some(1));
    assert_eq!(item20.order(&list), None);
}

#[test]
fn delete_several_renumbers_survivors() {
    let mut list = RefList::<u32>::new();
    let handles: Vec<_> = (0..6u32).map(|v| list.push(v * 10)).collect();
    list.delete(&[1, 3, 4]);
    assert_eq!(list.len(), 3);
    assert_eq!(handles[0].order(&list), Some(0));
    assert_eq!(handles[1].order(&list), None);
    assert_eq!(handles[2].order(&list), Some(1));
    assert_eq!(handles[3].order(&list), None);
    assert_eq!(handles[4].order(&list), None);
    assert_eq!(handles[5].order(&list), Some(2));
    assert_eq!(*list.read(&handles[5]).value(), 50);
    assert_eq!(*list.read(&handles[3]).value(), 30);
}

#[test]
fn delete_one_and_get() {
    let mut list = RefList::from_slice(&[1u8, 2, 3]);
    assert_eq!(list.len(), 3);
    let second = list.get(1).unwrap();
    let third = list.get(2).unwrap();
    assert!(list.get(3).is_none());
    list.delete_one(0);
    assert_eq!(second.order(&list), Some(0));
    assert_eq!(third.order(&list), Some(1));
    assert_eq!(list.get(1), Some(third));
    assert!(list.get(2).is_none());
    assert_eq!(list.read(&third).order(), Some(1));
}

#[test]
fn delete_nothing_keeps_orders() {
    let mut list = RefList::<u32>::new();
    let a = list.push(7);
    let b = list.push(8);
    list.begin_delete().done(&mut list);
    assert_eq!(a.order(&list), Some(0));
    assert_eq!(b.order(&list), Some(1));
    assert_eq!(list.len(), 2);
}
