//! Tests of handles to plain payloads and to payloads that refer to
//! themselves.

use dumpster::unsync::{collect, DefaultCondition, Dumpster, Gc};
use std::sync::atomic::{AtomicU8, AtomicUsize, Ordering};

struct MultiRef {
    counter: &'static AtomicUsize,
}

impl Drop for MultiRef {
    fn drop(&mut self) {
        self.counter.fetch_add(1, Ordering::Relaxed);
    }
}

static UNIT_DROP_COUNT: AtomicU8 = AtomicU8::new(0);

struct DropCount;

impl Drop for DropCount {
    fn drop(&mut self) {
        UNIT_DROP_COUNT.fetch_add(1, Ordering::Relaxed);
    }
}

#[test]
fn unit() {
    let mut d = Dumpster::new(DefaultCondition);
    let gc1 = Gc::new(&mut d, DropCount);
    let gc2 = Gc::clone(&gc1, &mut d);

    gc1.drop(&mut d);
    assert_eq!(UNIT_DROP_COUNT.load(Ordering::Relaxed), 0);
    gc2.drop(&mut d);
    assert_eq!(UNIT_DROP_COUNT.load(Ordering::Relaxed), 1);
}

static SELF_COUNT: AtomicUsize = AtomicUsize::new(0);

#[test]
fn lib_self_referential() {
    let mut d = Dumpster::new(DefaultCondition);
    let gc1 = Gc::new(&mut d, MultiRef { counter: &SELF_COUNT });
    let again = Gc::clone(&gc1, &mut d);
    gc1.push(&mut d, again);

    assert_eq!(SELF_COUNT.load(Ordering::Relaxed), 0);
    gc1.drop(&mut d);
    collect(&mut d);
    assert_eq!(SELF_COUNT.load(Ordering::Relaxed), 1);
}

static DOUBLE_COUNT: AtomicUsize = AtomicUsize::new(0);

#[test]
fn double_loop() {
    let mut d = Dumpster::new(DefaultCondition);
    let gc1 = Gc::new(&mut d, MultiRef { counter: &DOUBLE_COUNT });
    let first = Gc::clone(&gc1, &mut d);
    let second = Gc::clone(&gc1, &mut d);
    gc1.push(&mut d, first);
    gc1.push(&mut d, second);

    assert_eq!(DOUBLE_COUNT.load(Ordering::Relaxed), 0);
    gc1.drop(&mut d);
    collect(&mut d);
    assert_eq!(DOUBLE_COUNT.load(Ordering::Relaxed), 1);
}

static LOOP_COUNT_1: AtomicUsize = AtomicUsize::new(0);
static LOOP_COUNT_2: AtomicUsize = AtomicUsize::new(0);
static LOOP_COUNT_3: AtomicUsize = AtomicUsize::new(0);
static LOOP_COUNT_4: AtomicUsize = AtomicUsize::new(0);

#[test]
fn lib_parallel_loop() {
    let mut d = Dumpster::new(DefaultCondition);
    let gc1 = Gc::new(&mut d, MultiRef { counter: &LOOP_COUNT_1 });
    let gc2 = Gc::new(&mut d, MultiRef { counter: &LOOP_COUNT_2 });
    let to_gc1 = Gc::clone(&gc1, &mut d);
    gc2.push(&mut d, to_gc1);
    let gc3 = Gc::new(&mut d, MultiRef { counter: &LOOP_COUNT_3 });
    let to_gc1 = Gc::clone(&gc1, &mut d);
    gc3.push(&mut d, to_gc1);
    let gc4 = Gc::new(&mut d, MultiRef { counter: &LOOP_COUNT_4 });
    let to_gc2 = Gc::clone(&gc2, &mut d);
    gc4.push(&mut d, to_gc2);
    let to_gc3 = Gc::clone(&gc3, &mut d);
    gc4.push(&mut d, to_gc3);
    let to_gc4 = Gc::clone(&gc4, &mut d);
    gc1.push(&mut d, to_gc4);

    gc1.drop(&mut d);
    gc2.drop(&mut d);
    gc3.drop(&mut d);
    assert_eq!(LOOP_COUNT_1.load(Ordering::Relaxed), 0);
    assert_eq!(LOOP_COUNT_2.load(Ordering::Relaxed), 0);
    assert_eq!(LOOP_COUNT_3.load(Ordering::Relaxed), 0);
    assert_eq!(LOOP_COUNT_4.load(Ordering::Relaxed), 0);
    gc4.drop(&mut d);
    collect(&mut d);
    assert_eq!(LOOP_COUNT_1.load(Ordering::Relaxed), 1);
    assert_eq!(LOOP_COUNT_2.load(Ordering::Relaxed), 1);
    assert_eq!(LOOP_COUNT_3.load(Ordering::Relaxed), 1);
    assert_eq!(LOOP_COUNT_4.load(Ordering::Relaxed), 1);
}
