//! Simple tests of handles whose payloads refer to one another.

use dumpster::unsync::{collect, DefaultCondition, Dumpster, Gc};
use std::sync::atomic::{AtomicBool, AtomicU8, AtomicUsize, Ordering};

static SIMPLE_DROPPED: AtomicBool = AtomicBool::new(false);

struct SimpleFoo(u8);

impl Drop for SimpleFoo {
    fn drop(&mut self) {
        SIMPLE_DROPPED.store(true, Ordering::Relaxed);
    }
}

#[test]
/// Test a simple data structure
fn simple() {
    let mut d = Dumpster::new(DefaultCondition);
    let gc1 = Gc::new(&mut d, SimpleFoo(1));
    let gc2 = Gc::clone(&gc1, &mut d);
    assert_eq!(gc1.deref(&d).0, 1);

    assert!(!SIMPLE_DROPPED.load(Ordering::Relaxed));

    gc1.drop(&mut d);

    assert!(!SIMPLE_DROPPED.load(Ordering::Relaxed));

    gc2.drop(&mut d);

    assert!(SIMPLE_DROPPED.load(Ordering::Relaxed));
}

#[derive(Debug)]
struct MultiRef {
    drop_count: &'static AtomicUsize,
}

impl Drop for MultiRef {
    fn drop(&mut self) {
        self.drop_count.fetch_add(1, Ordering::Relaxed);
    }
}

static SELF_DROPPED: AtomicU8 = AtomicU8::new(0);

struct SelfFoo;

impl Drop for SelfFoo {
    fn drop(&mut self) {
        SELF_DROPPED.fetch_add(1, Ordering::Relaxed);
    }
}

#[test]
fn tests_self_referential() {
    let mut d = Dumpster::new(DefaultCondition);
    let gc = Gc::new(&mut d, SelfFoo);
    let again = Gc::clone(&gc, &mut d);
    gc.push(&mut d, again);

    assert_eq!(SELF_DROPPED.load(Ordering::Relaxed), 0);
    gc.drop(&mut d);
    collect(&mut d);
    assert_eq!(SELF_DROPPED.load(Ordering::Relaxed), 1);
}

static CYCLIC_DROPPED: AtomicU8 = AtomicU8::new(0);

struct CyclicFoo;

impl Drop for CyclicFoo {
    fn drop(&mut self) {
        CYCLIC_DROPPED.fetch_add(1, Ordering::Relaxed);
    }
}

#[test]
fn cyclic() {
    let mut d = Dumpster::new(DefaultCondition);
    let foo1 = Gc::new(&mut d, CyclicFoo);
    let foo2 = Gc::new(&mut d, CyclicFoo);
    let to_foo1 = Gc::clone(&foo1, &mut d);
    foo2.push(&mut d, to_foo1);
    let to_foo2 = Gc::clone(&foo2, &mut d);
    foo1.push(&mut d, to_foo2);

    assert_eq!(CYCLIC_DROPPED.load(Ordering::Relaxed), 0);
    foo1.drop(&mut d);
    assert_eq!(CYCLIC_DROPPED.load(Ordering::Relaxed), 0);
    foo2.drop(&mut d);
    collect(&mut d);
    assert_eq!(CYCLIC_DROPPED.load(Ordering::Relaxed), 2);
}

/// Construct a complete graph of garbage-collected allocations.
fn complete_graph(
    d: &mut Dumpster<MultiRef, DefaultCondition>,
    detectors: &'static [AtomicUsize],
) -> Vec<Gc<MultiRef>> {
    let mut gcs: Vec<Gc<MultiRef>> = Vec::new();
    for detector in detectors {
        let gc = Gc::new(d, MultiRef { drop_count: detector });
        for x in &gcs {
            let to_x = Gc::clone(x, d);
            gc.push(d, to_x);
            let to_gc = Gc::clone(&gc, d);
            x.push(d, to_gc);
        }
        gcs.push(gc);
    }

    gcs
}

static COMPLETE4_DETECTORS: [AtomicUsize; 4] = [
    AtomicUsize::new(0),
    AtomicUsize::new(0),
    AtomicUsize::new(0),
    AtomicUsize::new(0),
];

#[test]
fn complete4() {
    let mut d = Dumpster::new(DefaultCondition);
    let mut gcs = complete_graph(&mut d, &COMPLETE4_DETECTORS);

    for _ in 0..3 {
        gcs.pop().unwrap().drop(&mut d);
    }

    for detector in &COMPLETE4_DETECTORS {
        assert_eq!(detector.load(Ordering::Relaxed), 0);
    }

    for gc in gcs {
        gc.drop(&mut d);
    }
    collect(&mut d);

    for detector in &COMPLETE4_DETECTORS {
        assert_eq!(detector.load(Ordering::Relaxed), 1);
    }
}

static PARALLEL_COUNT_1: AtomicUsize = AtomicUsize::new(0);
static PARALLEL_COUNT_2: AtomicUsize = AtomicUsize::new(0);
static PARALLEL_COUNT_3: AtomicUsize = AtomicUsize::new(0);
static PARALLEL_COUNT_4: AtomicUsize = AtomicUsize::new(0);

#[test]
fn tests_parallel_loop() {
    let mut d = Dumpster::new(DefaultCondition);
    let gc1 = Gc::new(&mut d, MultiRef { drop_count: &PARALLEL_COUNT_1 });
    let gc2 = Gc::new(&mut d, MultiRef { drop_count: &PARALLEL_COUNT_2 });
    let to_gc1 = Gc::clone(&gc1, &mut d);
    gc2.push(&mut d, to_gc1);
    let gc3 = Gc::new(&mut d, MultiRef { drop_count: &PARALLEL_COUNT_3 });
    let to_gc1 = Gc::clone(&gc1, &mut d);
    gc3.push(&mut d, to_gc1);
    let gc4 = Gc::new(&mut d, MultiRef { drop_count: &PARALLEL_COUNT_4 });
    let to_gc2 = Gc::clone(&gc2, &mut d);
    gc4.push(&mut d, to_gc2);
    let to_gc3 = Gc::clone(&gc3, &mut d);
    gc4.push(&mut d, to_gc3);
    let to_gc4 = Gc::clone(&gc4, &mut d);
    gc1.push(&mut d, to_gc4);

    assert_eq!(PARALLEL_COUNT_1.load(Ordering::Relaxed), 0);
    assert_eq!(PARALLEL_COUNT_2.load(Ordering::Relaxed), 0);
    assert_eq!(PARALLEL_COUNT_3.load(Ordering::Relaxed), 0);
    assert_eq!(PARALLEL_COUNT_4.load(Ordering::Relaxed), 0);
    gc1.drop(&mut d);
    assert_eq!(PARALLEL_COUNT_1.load(Ordering::Relaxed), 0);
    assert_eq!(PARALLEL_COUNT_2.load(Ordering::Relaxed), 0);
    assert_eq!(PARALLEL_COUNT_3.load(Ordering::Relaxed), 0);
    assert_eq!(PARALLEL_COUNT_4.load(Ordering::Relaxed), 0);
    gc2.drop(&mut d);
    assert_eq!(PARALLEL_COUNT_1.load(Ordering::Relaxed), 0);
    assert_eq!(PARALLEL_COUNT_2.load(Ordering::Relaxed), 0);
    assert_eq!(PARALLEL_COUNT_3.load(Ordering::Relaxed), 0);
    assert_eq!(PARALLEL_COUNT_4.load(Ordering::Relaxed), 0);
    gc3.drop(&mut d);
    assert_eq!(PARALLEL_COUNT_1.load(Ordering::Relaxed), 0);
    assert_eq!(PARALLEL_COUNT_2.load(Ordering::Relaxed), 0);
    assert_eq!(PARALLEL_COUNT_3.load(Ordering::Relaxed), 0);
    assert_eq!(PARALLEL_COUNT_4.load(Ordering::Relaxed), 0);
    gc4.drop(&mut d);
    collect(&mut d);
    assert_eq!(PARALLEL_COUNT_1.load(Ordering::Relaxed), 1);
    assert_eq!(PARALLEL_COUNT_2.load(Ordering::Relaxed), 1);
    assert_eq!(PARALLEL_COUNT_3.load(Ordering::Relaxed), 1);
    assert_eq!(PARALLEL_COUNT_4.load(Ordering::Relaxed), 1);
}

static BORROW_DROP_COUNT: AtomicUsize = AtomicUsize::new(0);

#[test]
/// Check that we can drop a Gc which points to some allocation whose
/// payload was borrowed.
fn double_borrow() {
    let mut d = Dumpster::new(DefaultCondition);
    let gc = Gc::new(&mut d, MultiRef { drop_count: &BORROW_DROP_COUNT });
    let again = gc.clone(&mut d);
    gc.push(&mut d, again);
    gc.borrow_mut(&mut d);
    gc.pop(&mut d).unwrap().drop(&mut d);
    gc.end_borrow(&mut d);

    assert_eq!(BORROW_DROP_COUNT.load(Ordering::Relaxed), 0);
    collect(&mut d);
    gc.drop(&mut d);
    collect(&mut d);
    assert_eq!(BORROW_DROP_COUNT.load(Ordering::Relaxed), 1);
}
