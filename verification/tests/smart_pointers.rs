use idstore::smart_pointers::{Cache, FuncList, RefCellExample};
use std::fmt::Debug;

#[test]
fn example_box_dyn() {
    let mut v: Vec<Box<dyn Fn() -> usize>> = Vec::new();
    v.push(Box::new(|| 3));
    v.push(Box::new(|| 4));
    for func in v {
        println!("{}", func());
    }

    let mut v: Vec<Box<dyn Debug>> = Vec::new();
    v.push(Box::new(3));
    v.push(Box::new("hello"));
    v.push(Box::new("world".to_string()));

    for x in v {
        println!("{:?}", x);
    }

    let x = Box::new(3);
    let y = Box::new(4);
    println!("{}", *x + *y);
    let z: usize = *x;
    println!("{}", z);
}

#[test]
fn func_list_builds() {
    let list: FuncList<u64> = FuncList::Cons(1, Box::new(FuncList::Cons(2, Box::new(FuncList::Nil))));
    match list {
        FuncList::Cons(head, tail) => {
            assert_eq!(head, 1);
            match *tail {
                FuncList::Cons(second, rest) => {
                    assert_eq!(second, 2);
                    assert!(matches!(*rest, FuncList::Nil));
                }
                FuncList::Nil => panic!("list too short"),
            }
        }
        FuncList::Nil => panic!("list empty"),
    }
}

#[test]
fn cache_hits_and_misses() {
    let mut c = Cache::new();
    assert_eq!(c.hits(), 0);
    assert_eq!(c.misses(), 0);
    assert_eq!(c.query(1), None);
    c.save(1, 10);
    c.save(2, 20);
    assert_eq!(c.query(1), Some(10));
    assert_eq!(c.query(2), Some(20));
    assert_eq!(c.query(3), None);
    c.save(1, 11);
    assert_eq!(c.query(1), Some(11));
    assert_eq!(c.hits(), 3);
    assert_eq!(c.misses(), 2);
}

#[test]
fn ref_cell_example_modifies_both_lists() {
    let mut e = RefCellExample::new();
    assert_eq!(e.previous_items(), Vec::<usize>::new());
    assert_eq!(e.next_items(), Vec::<usize>::new());
    e.modify_with_immut_self();
    e.modify_with_immut_self();
    assert_eq!(e.previous_items(), vec![3, 3]);
    assert_eq!(e.next_items(), vec![4, 4]);
}
