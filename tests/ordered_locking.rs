use std::sync::Arc;

use undeadlock::get_initial_token;
use undeadlock::ordered::Order;
use undeadlock::ordered::OrderError;
use undeadlock::LockError;
use undeadlock::OrderedMutex;

const FLOAT: u64 = 1;
const INT: u64 = 2;

fn float_int_order() -> Order {
    Order::declare(vec![FLOAT, INT]).unwrap()
}

#[test]
fn locking_ordered() {
    let order = float_int_order();
    let mut initial_token = get_initial_token();

    let mutex1 = OrderedMutex::new(5, order.category(INT).unwrap());
    let mutex2 = OrderedMutex::new(3.3, order.category(FLOAT).unwrap());

    let (mut next_token, data1) = mutex1.lock(&mut initial_token).unwrap();
    let (_final_token, data2) = mutex2.lock(&mut next_token).unwrap();

    assert_eq!((*data1, *data2), (5, 3.3));
}

#[test]
fn reverse_of_declared_pair_is_rejected() {
    let order = float_int_order();
    let int_lock = OrderedMutex::new(5, order.category(INT).unwrap());
    let float_lock = OrderedMutex::new(3.3, order.category(FLOAT).unwrap());
    let other_int_lock = OrderedMutex::new(6, order.category(INT).unwrap());

    // Float may not open a chain: only Int is declared after the start.
    let mut token = get_initial_token();
    assert!(matches!(float_lock.lock(&mut token), Err(LockError::OrderViolation)));

    // The refused attempt left the token usable and the mutex untouched.
    let (mut int_token, int_guard) = int_lock.lock(&mut token).unwrap();
    assert_eq!(*int_guard, 5);
    let (mut float_token, float_guard) = float_lock.lock(&mut int_token).unwrap();
    assert_eq!(*float_guard, 3.3);

    // Int is not declared after Float.
    assert!(matches!(other_int_lock.lock(&mut float_token), Err(LockError::OrderViolation)));
    let mut fresh = get_initial_token();
    let (_t, g) = other_int_lock.lock(&mut fresh).unwrap();
    assert_eq!(*g, 6);
}

#[test]
fn reusing_a_token_is_rejected_every_time() {
    let order = float_int_order();
    let int_lock = OrderedMutex::new(7, order.category(INT).unwrap());
    let float_lock = OrderedMutex::new(1.5, order.category(FLOAT).unwrap());
    let mut token = get_initial_token();

    let (_next, guard) = int_lock.lock(&mut token).unwrap();
    assert_eq!(*guard, 7);
    for _ in 0..3 {
        let r = float_lock.lock(&mut token);
        assert!(matches!(r, Err(LockError::TokenConsumed)));
    }
}

#[test]
fn same_category_cannot_be_locked_twice_in_a_chain() {
    let order = float_int_order();
    let a = OrderedMutex::new(1, order.category(INT).unwrap());
    let b = OrderedMutex::new(2, order.category(INT).unwrap());
    let mut token = get_initial_token();
    let (mut next, _ga) = a.lock(&mut token).unwrap();
    assert!(matches!(b.lock(&mut next), Err(LockError::OrderViolation)));
}

#[test]
fn chain_may_skip_categories() {
    let order = Order::declare(vec![30, 20, 10]).unwrap();
    let inner = OrderedMutex::new(String::from("inner"), order.category(10).unwrap());
    let outer = OrderedMutex::new(String::from("outer"), order.category(30).unwrap());
    let middle = OrderedMutex::new(String::from("middle"), order.category(20).unwrap());

    let mut token = get_initial_token();
    let (mut t1, g1) = inner.lock(&mut token).unwrap();
    let (_t2, g2) = outer.lock(&mut t1).unwrap();
    assert_eq!((g1.as_str(), g2.as_str()), ("inner", "outer"));
    drop((g1, g2));

    // Only the innermost category may open a chain.
    let mut start = get_initial_token();
    assert!(matches!(middle.lock(&mut start), Err(LockError::OrderViolation)));
    assert!(matches!(outer.lock(&mut start), Err(LockError::OrderViolation)));
    let (mut t, gi) = inner.lock(&mut start).unwrap();
    assert_eq!(gi.as_str(), "inner");
    let (mut t2, gm) = middle.lock(&mut t).unwrap();
    assert_eq!(gm.as_str(), "middle");
    assert!(matches!(inner.lock(&mut t2), Err(LockError::OrderViolation)));
    let (_t3, go) = outer.lock(&mut t2).unwrap();
    assert_eq!(go.as_str(), "outer");
}

#[test]
fn categories_of_two_orders_never_meet_in_a_chain() {
    let first = Order::declare(vec![3, 2, 1]).unwrap();
    let second = Order::declare(vec![9, 1]).unwrap();
    let contradictory = Order::declare(vec![1, 3]).unwrap();
    let m1 = OrderedMutex::new(10, first.category(1).unwrap());
    let m2 = OrderedMutex::new(20, second.category(9).unwrap());
    let m3 = OrderedMutex::new(30, contradictory.category(1).unwrap());
    let m4 = OrderedMutex::new(40, first.category(3).unwrap());

    let mut start = get_initial_token();
    let (mut t1, g1) = m1.lock(&mut start).unwrap();
    assert_eq!(*g1, 10);
    // Rank 0 of another order is below rank 2 of the first, yet refused.
    assert!(matches!(m2.lock(&mut t1), Err(LockError::OrderViolation)));
    assert!(matches!(m3.lock(&mut t1), Err(LockError::OrderViolation)));
    let (_t4, g4) = m4.lock(&mut t1).unwrap();
    assert_eq!(*g4, 40);

    // An order declared twice with the same list is the same order.
    let again = Order::declare(vec![3, 2, 1]).unwrap();
    let m5 = OrderedMutex::new(50, again.category(2).unwrap());
    let mut start2 = get_initial_token();
    let m6 = OrderedMutex::new(60, contradictory.category(3).unwrap());
    let (mut t3, _g3) = m6.lock(&mut start2).unwrap();
    assert!(matches!(m5.lock(&mut t3), Err(LockError::OrderViolation)));
    drop(g1);
    let mut start3 = get_initial_token();
    let (mut t5, _g5) = m1.lock(&mut start3).unwrap();
    let (_t6, g6) = m5.lock(&mut t5).unwrap();
    assert_eq!(*g6, 50);
}

#[test]
fn declaring_a_category_twice_is_refused() {
    assert!(matches!(
        Order::declare(vec![4, 5, 4]),
        Err(OrderError::DuplicateCategory)
    ));
    assert!(matches!(
        Order::declare(vec![9, 9]),
        Err(OrderError::DuplicateCategory)
    ));
    assert!(Order::declare(vec![]).is_ok());
    assert!(Order::declare(vec![4, 5, 6]).is_ok());
}

#[test]
fn categories_are_ranked_by_position() {
    let order = Order::declare(vec![30, 20, 10]).unwrap();
    assert_eq!(order.category(30).unwrap().rank(), 0);
    assert_eq!(order.category(20).unwrap().rank(), 1);
    assert_eq!(order.category(10).unwrap().rank(), 2);
    assert!(order.category(40).is_none());
    assert!(order.category(10).unwrap().opens_chain());
    assert!(!order.category(20).unwrap().opens_chain());
    assert!(!order.category(30).unwrap().opens_chain());
    assert!(Order::declare(vec![]).unwrap().category(10).is_none());
}

#[test]
fn declared_relation() {
    let order = float_int_order();
    assert!(order.after(INT, None));
    assert!(!order.after(FLOAT, None));
    assert!(order.after(FLOAT, Some(INT)));
    assert!(!order.after(INT, Some(FLOAT)));
    assert!(!order.after(INT, Some(INT)));
    assert!(!order.after(3, None));
    assert!(!order.after(FLOAT, Some(3)));
    assert!(!Order::declare(vec![]).unwrap().after(FLOAT, None));
}

fn run_chain(r1: &OrderedMutex<Vec<i32>>, r2: &OrderedMutex<Vec<String>>, a: i32, b: i32, s: &str) {
    let mut token = get_initial_token();
    let (mut token, mut g1) = r1.lock(&mut token).unwrap();
    let (_token, mut g2) = r2.lock(&mut token).unwrap();
    g1.push(a);
    g1.push(b);
    g2.push(String::from(s));
}

#[test]
fn two_chains_follow_the_order() {
    let order = Order::declare(vec![2, 1]).unwrap();
    for trial in 0..100 {
        let r1 = Arc::new(OrderedMutex::new(Vec::<i32>::new(), order.category(1).unwrap()));
        let r2 = Arc::new(OrderedMutex::new(Vec::<String>::new(), order.category(2).unwrap()));
        let (c1, c2) = (r1.clone(), r2.clone());
        if trial % 2 == 0 {
            run_chain(&c1, &c2, 5, 3, "Hello world");
            run_chain(&r1, &r2, 2, 4, "Other thread");
        } else {
            run_chain(&r1, &r2, 2, 4, "Other thread");
            run_chain(&c1, &c2, 5, 3, "Hello world");
        }
        let mut token = get_initial_token();
        let (mut token, g1) = r1.lock(&mut token).unwrap();
        let (_token, g2) = r2.lock(&mut token).unwrap();
        let mut ints = g1.clone();
        ints.sort();
        assert_eq!(ints, vec![2, 3, 4, 5]);
        let mut strings = g2.clone();
        strings.sort();
        assert_eq!(strings, vec![String::from("Hello world"), String::from("Other thread")]);
    }
}
