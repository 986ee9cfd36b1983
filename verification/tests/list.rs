use inventory_sim::error::Error;
use inventory_sim::item::PouchItem;
use inventory_sim::list::{ListNode, OffsetList};
use inventory_sim::mem::{Memory, Pointer};
use inventory_sim::pmdm::{ByValue, PouchOrder};
use inventory_sim::traits::Updatable;

const BASE: u64 = 0x2000_0000;
const SLOT: u64 = 0x40;
const LINK: u64 = 8;

fn element(i: u64) -> u64 {
    BASE + 0x100 + i * SLOT
}

fn node(i: u64) -> u64 {
    element(i) + LINK
}

fn store_link(memory: &mut Memory, at: u64, prev: u64, next: u64) {
    memory
        .write(at, Box::new(ListNode { prev: Pointer::new(prev), next: Pointer::new(next) }))
        .unwrap();
}

/// A list of `count` elements of 0x40 bytes each, with the link 8 bytes in,
/// and the value of each element 32 bytes in.
fn build(count: u64) -> (Memory, OffsetList<PouchItem>, Pointer<OffsetList<PouchItem>>) {
    let mut memory = Memory::init(BASE, vec![0xaa; 0x1000]);
    let ring = |i: i64| -> u64 {
        if i < 0 || i as u64 >= count {
            BASE
        } else {
            node(i as u64)
        }
    };
    store_link(&mut memory, BASE, ring(count as i64 - 1), ring(0));
    memory.write(BASE + 16, Box::new(count as i32)).unwrap();
    memory.write(BASE + 20, Box::new(LINK as i32)).unwrap();
    for i in 0..count {
        store_link(&mut memory, node(i), ring(i as i64 - 1), ring(i as i64 + 1));
        memory.write(element(i) + 32, Box::new(100 - i as i32)).unwrap();
    }
    let this = Pointer::new(BASE);
    let list = *this.read(&memory).unwrap();
    (memory, list, this)
}

fn elements(memory: &Memory, list: &OffsetList<PouchItem>, this: Pointer<OffsetList<PouchItem>>) -> Vec<u64> {
    let mut out = vec![];
    let mut at = list.nth(memory, 0).unwrap();
    while !at.is_null() {
        out.push(at.address);
        at = list.next(memory, this, at).unwrap();
    }
    out
}

#[test]
fn header_layout_is_read_field_by_field() {
    let (_, list, _) = build(3);
    assert_eq!(list.count, 3);
    assert_eq!(list.offset, 8);
    assert_eq!(list.start_end.next.address, node(0));
    assert_eq!(list.start_end.prev.address, node(2));
    assert_eq!(OffsetList::<PouchItem>::size(), 24);
    assert_eq!(
        list.to_bytes()[16..],
        [3, 0, 0, 0, 8, 0, 0, 0]
    );
}

#[test]
fn next_and_prev_walk_the_ring_to_null() {
    let (memory, list, this) = build(3);
    let first = Pointer::new(element(0));
    let second = list.next(&memory, this, first).unwrap();
    assert_eq!(second.address, element(1));
    let third = list.next(&memory, this, second).unwrap();
    assert_eq!(third.address, element(2));
    assert!(list.next(&memory, this, third).unwrap().is_null());
    assert_eq!(list.prev(&memory, this, third).unwrap().address, element(1));
    assert!(list.prev(&memory, this, first).unwrap().is_null());
}

#[test]
fn nth_gives_the_element_or_null() {
    let (memory, list, _) = build(3);
    assert_eq!(list.nth(&memory, 0).unwrap().address, element(0));
    assert_eq!(list.nth(&memory, 2).unwrap().address, element(2));
    assert!(list.nth(&memory, 3).unwrap().is_null());
    assert!(list.nth(&memory, -1).unwrap().is_null());
    assert!(list.nth(&memory, i32::MAX).unwrap().is_null());
}

#[test]
fn erase_unlinks_and_counts_down() {
    let (mut memory, mut list, this) = build(3);
    list.erase(&mut memory, this, Pointer::new(element(1))).unwrap();
    assert_eq!(list.count, 2);
    assert_eq!(elements(&memory, &list, this), vec![element(0), element(2)]);
    assert_eq!(
        list.prev(&memory, this, Pointer::new(element(2))).unwrap().address,
        element(0)
    );
    // The erased link keeps its `next` and loses its `prev`.
    let erased = *memory.read::<ListNode>(node(1)).unwrap();
    assert_eq!(erased.prev.address, 0);
    assert_eq!(erased.next.address, node(2));
    // Nothing but link fields and the count has changed.
    assert_eq!(*memory.read::<i32>(element(1) + 32).unwrap(), 99);
    assert_eq!(memory.read_bytes(element(1), 8), Ok(vec![0xaa; 8]));
    list.erase(&mut memory, this, Pointer::new(element(0))).unwrap();
    list.erase(&mut memory, this, Pointer::new(element(2))).unwrap();
    assert_eq!(list.count, 0);
    assert!(list.nth(&memory, 0).unwrap().is_null());
    assert_eq!(list.start_end.next.address, BASE);
    assert_eq!(list.start_end.prev.address, BASE);
    assert_eq!(list.traverse(&memory, this), Ok(()));
}

#[test]
fn erase_of_an_unreadable_element_fails() {
    let (mut memory, mut list, this) = build(1);
    assert_eq!(
        list.erase(&mut memory, this, Pointer::new(BASE + 0x2000)),
        Err(Error::Uninitialized { address: BASE + 0x2008, len: 16 })
    );
    assert_eq!(
        list.erase(&mut memory, this, Pointer::new(0x10)),
        Err(Error::OutOfRange { address: 0x18, len: 16 })
    );
    assert_eq!(list.count, 1);
}

#[test]
fn traverse_ends_well_on_a_sound_list() {
    let (memory, list, this) = build(5);
    assert_eq!(list.traverse(&memory, this), Ok(()));
}

#[test]
fn traverse_fails_on_a_cycle_shorter_than_the_count() {
    let (mut memory, _, this) = build(4);
    // The third link leads back to the second: the sentinel is never reached.
    store_link(&mut memory, node(2), node(1), node(1));
    let list = *this.read(&memory).unwrap();
    assert_eq!(list.count, 4);
    assert_eq!(list.traverse(&memory, this), Err(Error::CorruptList { node: node(1) }));
    // A link that leads to itself.
    store_link(&mut memory, node(0), BASE, node(0));
    assert_eq!(list.traverse(&memory, this), Err(Error::CorruptList { node: node(0) }));
}

#[test]
fn traverse_fails_at_a_link_that_cannot_be_read() {
    let (mut memory, _, this) = build(2);
    store_link(&mut memory, node(1), node(0), BASE + 0x5000);
    let list = *this.read(&memory).unwrap();
    assert_eq!(
        list.traverse(&memory, this),
        Err(Error::Uninitialized { address: BASE + 0x5000, len: 16 })
    );
}

#[test]
fn sort_orders_by_the_predicate_and_keeps_ties() {
    let (mut memory, mut list, this) = build(4);
    // Values 100, 99, 98, 97: by value the order turns round.
    list.sort(&mut memory, this, &ByValue).unwrap();
    assert_eq!(
        elements(&memory, &list, this),
        vec![element(3), element(2), element(1), element(0)]
    );
    assert_eq!(list.count, 4);
    assert_eq!(list.traverse(&memory, this), Ok(()));
    assert_eq!(list.prev(&memory, this, Pointer::new(element(0))).unwrap().address, element(1));
    // Equal values keep the order that they have.
    memory.write(element(2) + 32, Box::new(97i32)).unwrap();
    memory.write(element(1) + 32, Box::new(97i32)).unwrap();
    list.sort(&mut memory, this, &ByValue).unwrap();
    assert_eq!(
        elements(&memory, &list, this),
        vec![element(3), element(2), element(1), element(0)]
    );
    // A predicate that tells nothing apart changes nothing.
    list.sort(&mut memory, this, &PouchOrder).unwrap();
    assert_eq!(
        elements(&memory, &list, this),
        vec![element(3), element(2), element(1), element(0)]
    );
}

#[test]
fn sort_fails_on_a_broken_ring() {
    let (mut memory, mut list, this) = build(3);
    store_link(&mut memory, node(2), node(1), node(0));
    assert_eq!(
        list.sort(&mut memory, this, &ByValue),
        Err(Error::CorruptList { node: node(0) })
    );
}

#[test]
fn push_back_links_behind_the_last() {
    let (mut memory, mut list, this) = build(2);
    store_link(&mut memory, node(5), 0, 0);
    list.push_back(&mut memory, this, Pointer::new(element(5))).unwrap();
    assert_eq!(list.count, 3);
    assert_eq!(elements(&memory, &list, this), vec![element(0), element(1), element(5)]);
    assert_eq!(list.prev(&memory, this, Pointer::new(element(5))).unwrap().address, element(1));
    assert_eq!(list.start_end.prev.address, node(5));
    assert_eq!(list.traverse(&memory, this), Ok(()));
    // Into an empty list.
    let (mut memory, mut list, this) = build(0);
    list.push_back(&mut memory, this, Pointer::new(element(3))).unwrap();
    assert_eq!(list.count, 1);
    assert_eq!(elements(&memory, &list, this), vec![element(3)]);
    assert_eq!(list.start_end.next.address, node(3));
    assert_eq!(list.start_end.prev.address, node(3));
    // And out again.
    list.erase(&mut memory, this, Pointer::new(element(3))).unwrap();
    assert_eq!(list.count, 0);
    assert_eq!(elements(&memory, &list, this), Vec::<u64>::new());
}
