//! Tests of the statistics, the collect condition and the collector's
//! decisions on small heaps.

use dumpster::unsync::{
    collect, default_collect_condition, set_collect_condition, CollectCondition, CollectInfo,
    DefaultCondition, Dumpster, Gc,
};
use std::cell::Cell;
use std::rc::Rc;

/// A payload that counts its destructions.
struct Counted {
    name: u8,
    drops: Rc<Cell<usize>>,
    log: Rc<Cell<u64>>,
}

impl Drop for Counted {
    fn drop(&mut self) {
        self.drops.set(self.drops.get() + 1);
        self.log.set(self.log.get() * 10 + u64::from(self.name));
    }
}

fn counted(name: u8, drops: &Rc<Cell<usize>>, log: &Rc<Cell<u64>>) -> Counted {
    Counted { name, drops: Rc::clone(drops), log: Rc::clone(log) }
}

/// A condition that collects once more than `0` handles were dropped since
/// the last collection.
struct MoreThan(usize);

impl CollectCondition for MoreThan {
    fn decides(&self, info: CollectInfo) -> bool {
        info.n_ref_drops > self.0
    }

    fn should_collect(&self, info: &CollectInfo) -> bool {
        info.n_gcs_dropped_since_last_collect() > self.0
    }
}

const NEVER: MoreThan = MoreThan(usize::MAX);
const ALWAYS: MoreThan = MoreThan(0);

#[test]
fn default_condition_compares_drops_with_living() {
    let more_drops = CollectInfo { n_ref_drops: 3, n_refs_living: 2 };
    let equal = CollectInfo { n_ref_drops: 2, n_refs_living: 2 };
    let fewer_drops = CollectInfo { n_ref_drops: 1, n_refs_living: 2 };
    let nothing = CollectInfo { n_ref_drops: 0, n_refs_living: 0 };
    assert!(default_collect_condition(&more_drops));
    assert!(!default_collect_condition(&equal));
    assert!(!default_collect_condition(&fewer_drops));
    assert!(!default_collect_condition(&nothing));
    assert!(DefaultCondition.should_collect(&more_drops));
    assert!(!DefaultCondition.should_collect(&equal));
}

#[test]
fn collect_info_getters_return_the_fields() {
    let info = CollectInfo { n_ref_drops: 7, n_refs_living: 11 };
    assert_eq!(info.n_gcs_dropped_since_last_collect(), 7);
    assert_eq!(info.n_gcs_existing(), 11);
}

#[test]
fn new_dumpster_is_empty() {
    let d: Dumpster<u8, DefaultCondition> = Dumpster::new(DefaultCondition);
    assert_eq!(d.collect_info().n_gcs_existing(), 0);
    assert_eq!(d.collect_info().n_gcs_dropped_since_last_collect(), 0);
    assert!(!d.is_collecting());
}

#[test]
fn living_counts_the_handles() {
    let mut d = Dumpster::new(NEVER);
    let a = Gc::new(&mut d, 1u8);
    let b = Gc::new(&mut d, 2u8);
    assert_eq!(d.collect_info().n_gcs_existing(), 2);
    let a2 = a.clone(&mut d);
    assert_eq!(d.collect_info().n_gcs_existing(), 3);
    assert_eq!(d.collect_info().n_gcs_dropped_since_last_collect(), 0);
    b.push(&mut d, a2);
    assert_eq!(d.collect_info().n_gcs_existing(), 3);
    a.drop(&mut d);
    assert_eq!(d.collect_info().n_gcs_existing(), 2);
    assert_eq!(d.collect_info().n_gcs_dropped_since_last_collect(), 1);
    collect(&mut d);
    assert_eq!(d.collect_info().n_gcs_existing(), 2);
    assert_eq!(d.collect_info().n_gcs_dropped_since_last_collect(), 0);
    // dropping `b` destroys it and, with it, the last handle to the other
    b.drop(&mut d);
    assert_eq!(d.collect_info().n_gcs_existing(), 0);
    assert_eq!(d.collect_info().n_gcs_dropped_since_last_collect(), 2);
}

#[test]
fn deref_gives_the_value() {
    let mut d = Dumpster::new(DefaultCondition);
    let a = Gc::new(&mut d, 41u32);
    let b = Gc::new(&mut d, 42u32);
    assert_eq!(*a.deref(&d), 41);
    assert_eq!(*b.deref(&d), 42);
    let b2 = b.clone(&mut d);
    assert_eq!(*b2.deref(&d), 42);
}

#[test]
fn create_then_drop_leaves_nothing() {
    let drops = Rc::new(Cell::new(0));
    let log = Rc::new(Cell::new(0));
    let mut d = Dumpster::new(NEVER);
    let keep = Gc::new(&mut d, counted(1, &drops, &log));
    let gone = Gc::new(&mut d, counted(2, &drops, &log));
    gone.drop(&mut d);
    assert_eq!(drops.get(), 1);
    assert_eq!(log.get(), 2);
    assert_eq!(d.collect_info().n_gcs_existing(), 1);
    assert_eq!(d.collect_info().n_gcs_dropped_since_last_collect(), 1);
    assert_eq!(keep.deref(&d).name, 1);
    // the address is free again
    let next = Gc::new(&mut d, counted(3, &drops, &log));
    assert_eq!(next.deref(&d).name, 3);
    assert_eq!(keep.deref(&d).name, 1);
    assert_eq!(drops.get(), 1);
}

#[test]
fn collect_twice_is_collect_once() {
    let drops = Rc::new(Cell::new(0));
    let log = Rc::new(Cell::new(0));
    let mut d = Dumpster::new(NEVER);
    let x = Gc::new(&mut d, counted(1, &drops, &log));
    let again = x.clone(&mut d);
    x.push(&mut d, again);
    let keep = Gc::new(&mut d, counted(2, &drops, &log));
    x.drop(&mut d);
    collect(&mut d);
    assert_eq!(drops.get(), 1);
    let existing = d.collect_info().n_gcs_existing();
    collect(&mut d);
    assert_eq!(drops.get(), 1);
    assert_eq!(d.collect_info().n_gcs_existing(), existing);
    assert_eq!(d.collect_info().n_gcs_dropped_since_last_collect(), 0);
    assert_eq!(keep.deref(&d).name, 2);
}

#[test]
fn last_drop_destroys_what_the_payload_owned() {
    let drops = Rc::new(Cell::new(0));
    let log = Rc::new(Cell::new(0));
    let mut d = Dumpster::new(NEVER);
    let a = Gc::new(&mut d, counted(1, &drops, &log));
    let b = Gc::new(&mut d, counted(2, &drops, &log));
    let c = Gc::new(&mut d, counted(3, &drops, &log));
    let e = Gc::new(&mut d, counted(4, &drops, &log));
    // a owns b and e, b owns c
    b.push(&mut d, c);
    a.push(&mut d, b);
    a.push(&mut d, e);
    assert_eq!(drops.get(), 0);
    a.drop(&mut d);
    assert_eq!(drops.get(), 4);
    // each payload goes before what it owned, the first handle first
    assert_eq!(log.get(), 1234);
    assert_eq!(d.collect_info().n_gcs_existing(), 0);
    assert_eq!(d.collect_info().n_gcs_dropped_since_last_collect(), 4);
}

#[test]
fn shared_allocation_survives_its_owner() {
    let drops = Rc::new(Cell::new(0));
    let log = Rc::new(Cell::new(0));
    let mut d = Dumpster::new(NEVER);
    let a = Gc::new(&mut d, counted(1, &drops, &log));
    let b = Gc::new(&mut d, counted(2, &drops, &log));
    let to_b = b.clone(&mut d);
    a.push(&mut d, to_b);
    a.drop(&mut d);
    assert_eq!(drops.get(), 1);
    assert_eq!(b.deref(&d).name, 2);
    // the count of `b` went down without `b` being destroyed: a suspect,
    // which the collector finds referred to from outside
    collect(&mut d);
    assert_eq!(drops.get(), 1);
    assert_eq!(b.deref(&d).name, 2);
    b.drop(&mut d);
    assert_eq!(drops.get(), 2);
}

#[test]
fn held_handle_keeps_a_cycle_alive() {
    let drops = Rc::new(Cell::new(0));
    let log = Rc::new(Cell::new(0));
    let mut d = Dumpster::new(NEVER);
    let a = Gc::new(&mut d, counted(1, &drops, &log));
    let b = Gc::new(&mut d, counted(2, &drops, &log));
    let to_a = a.clone(&mut d);
    let to_b = b.clone(&mut d);
    b.push(&mut d, to_a);
    a.push(&mut d, to_b);
    b.drop(&mut d);
    collect(&mut d);
    // `b` is reachable from `a`, which is still held
    assert_eq!(drops.get(), 0);
    assert_eq!(a.deref(&d).name, 1);
    assert_eq!(d.collect_info().n_gcs_existing(), 3);
}

#[test]
fn collector_examines_the_suspects_only() {
    let drops = Rc::new(Cell::new(0));
    let log = Rc::new(Cell::new(0));
    let mut d = Dumpster::new(NEVER);
    let a = Gc::new(&mut d, counted(1, &drops, &log));
    let b = Gc::new(&mut d, counted(2, &drops, &log));
    let to_a = a.clone(&mut d);
    b.push(&mut d, to_a);
    // the only handle to `b` moves into `a`: `b` never becomes a suspect
    a.push(&mut d, b);
    a.drop(&mut d);
    collect(&mut d);
    // `a` is the only suspect, and the handle which `b` owns to it counts as
    // one from outside the suspects
    assert_eq!(drops.get(), 0);
}

#[test]
fn garbage_cycle_goes_while_a_held_one_stays() {
    let drops = Rc::new(Cell::new(0));
    let log = Rc::new(Cell::new(0));
    let mut d = Dumpster::new(NEVER);
    let x = Gc::new(&mut d, counted(1, &drops, &log));
    let to_x = x.clone(&mut d);
    x.push(&mut d, to_x);
    let y = Gc::new(&mut d, counted(2, &drops, &log));
    let to_y = y.clone(&mut d);
    y.push(&mut d, to_y);
    let y2 = y.clone(&mut d);
    x.drop(&mut d);
    y2.drop(&mut d);
    collect(&mut d);
    assert_eq!(drops.get(), 1);
    assert_eq!(log.get(), 1);
    assert_eq!(y.deref(&d).name, 2);
}

#[test]
fn borrowed_payload_is_kept_until_the_borrow_ends() {
    let drops = Rc::new(Cell::new(0));
    let log = Rc::new(Cell::new(0));
    let mut d = Dumpster::new(NEVER);
    let x = Gc::new(&mut d, counted(1, &drops, &log));
    let to_x = x.clone(&mut d);
    x.push(&mut d, to_x);
    let x2 = x.clone(&mut d);
    x.borrow_mut(&mut d);
    x2.drop(&mut d);
    collect(&mut d);
    assert_eq!(drops.get(), 0);
    x.end_borrow(&mut d);
    x.drop(&mut d);
    assert_eq!(drops.get(), 0);
    collect(&mut d);
    assert_eq!(drops.get(), 1);
}

#[test]
fn borrowed_member_keeps_its_cycle() {
    let drops = Rc::new(Cell::new(0));
    let log = Rc::new(Cell::new(0));
    let mut d = Dumpster::new(NEVER);
    let a = Gc::new(&mut d, counted(1, &drops, &log));
    let b = Gc::new(&mut d, counted(2, &drops, &log));
    let to_a = a.clone(&mut d);
    let to_b = b.clone(&mut d);
    b.push(&mut d, to_a);
    a.push(&mut d, to_b);
    a.borrow_mut(&mut d);
    let a2 = a.clone(&mut d);
    a2.drop(&mut d);
    b.drop(&mut d);
    collect(&mut d);
    // `a` refuses the visit, so it stays, and so does `b`, whose count the
    // handle in `a` keeps up
    assert_eq!(drops.get(), 0);
    assert_eq!(a.deref(&d).name, 1);
}

#[test]
fn pop_returns_the_last_handle() {
    let mut d = Dumpster::new(NEVER);
    let a = Gc::new(&mut d, 1u8);
    let b = Gc::new(&mut d, 2u8);
    let c = Gc::new(&mut d, 3u8);
    assert!(a.pop(&mut d).is_none());
    a.push(&mut d, b);
    a.push(&mut d, c);
    let last = a.pop(&mut d).unwrap();
    assert_eq!(*last.deref(&d), 3);
    let first = a.pop(&mut d).unwrap();
    assert_eq!(*first.deref(&d), 2);
    assert!(a.pop(&mut d).is_none());
    assert_eq!(d.collect_info().n_gcs_existing(), 3);
}

#[test]
fn condition_starts_a_collection_at_a_drop() {
    let drops = Rc::new(Cell::new(0));
    let log = Rc::new(Cell::new(0));
    let mut d = Dumpster::new(ALWAYS);
    let x = Gc::new(&mut d, counted(1, &drops, &log));
    let to_x = x.clone(&mut d);
    x.push(&mut d, to_x);
    x.drop(&mut d);
    assert_eq!(drops.get(), 1);
    assert_eq!(d.collect_info().n_gcs_dropped_since_last_collect(), 0);
}

#[test]
fn default_condition_collects_when_drops_exceed_living() {
    let drops = Rc::new(Cell::new(0));
    let log = Rc::new(Cell::new(0));
    let mut d = Dumpster::new(DefaultCondition);
    let x = Gc::new(&mut d, counted(1, &drops, &log));
    let to_x = x.clone(&mut d);
    x.push(&mut d, to_x);
    let other = Gc::new(&mut d, counted(2, &drops, &log));
    // living 3
    x.drop(&mut d);
    // living 2, drops 1: no collection
    assert_eq!(drops.get(), 0);
    assert_eq!(d.collect_info().n_gcs_dropped_since_last_collect(), 1);
    other.drop(&mut d);
    // living 1, drops 2: the collection runs and finds the cycle
    assert_eq!(drops.get(), 2);
    assert_eq!(d.collect_info().n_gcs_dropped_since_last_collect(), 0);
    assert_eq!(d.collect_info().n_gcs_existing(), 1);
}

#[test]
fn set_collect_condition_replaces_the_rule() {
    let drops = Rc::new(Cell::new(0));
    let log = Rc::new(Cell::new(0));
    let mut d = Dumpster::new(MoreThan(usize::MAX));
    let x = Gc::new(&mut d, counted(1, &drops, &log));
    let to_x = x.clone(&mut d);
    x.push(&mut d, to_x);
    let y = Gc::new(&mut d, counted(2, &drops, &log));
    x.drop(&mut d);
    assert_eq!(drops.get(), 0);
    set_collect_condition(&mut d, MoreThan(1));
    assert_eq!(drops.get(), 0);
    assert_eq!(d.collect_info().n_gcs_dropped_since_last_collect(), 1);
    y.drop(&mut d);
    assert_eq!(drops.get(), 2);
}

#[test]
fn collector_keeps_counts_of_survivors() {
    let drops = Rc::new(Cell::new(0));
    let log = Rc::new(Cell::new(0));
    let mut d = Dumpster::new(NEVER);
    // a garbage self-loop that also owns a handle to `w`
    let w = Gc::new(&mut d, counted(9, &drops, &log));
    let x = Gc::new(&mut d, counted(1, &drops, &log));
    let to_x = x.clone(&mut d);
    let to_w = w.clone(&mut d);
    x.push(&mut d, to_x);
    x.push(&mut d, to_w);
    x.drop(&mut d);
    collect(&mut d);
    assert_eq!(drops.get(), 1);
    assert_eq!(w.deref(&d).name, 9);
    // handles dropped by a destructor during a collection are not counted
    assert_eq!(d.collect_info().n_gcs_existing(), 3);
}
