use inventory_sim::error::Error;
use inventory_sim::mem::{Memory, Pointer};
use inventory_sim::slab::{FixedObjArray, FreeListNode};
use inventory_sim::traits::{Constructor, Updatable};

const BASE: u64 = 0x3000_0000;

type Slab = FixedObjArray<u64, 3>;

fn build() -> (Memory, Slab, Pointer<Slab>) {
    let mut memory = Memory::init(BASE, vec![0xcc; 0x100]);
    let this: Pointer<Slab> = Pointer::new(BASE);
    let mut slab = *this.read(&memory).unwrap();
    slab.ctor(&mut memory, this).unwrap();
    (memory, slab, this)
}

#[test]
fn slab_size_counts_slots_and_table() {
    assert_eq!(Slab::size(), 32 + 3 * (8 + 8));
    assert_eq!(FixedObjArray::<u8, 2>::size(), 32 + 2 * 16);
    assert_eq!(FixedObjArray::<u8, 0>::size(), 32);
}

#[test]
fn ctor_chains_every_slot() {
    let (memory, slab, _) = build();
    assert_eq!(slab.ptr_num(), 0);
    assert_eq!(slab.ptr_num_max(), 3);
    assert_eq!(slab.free().address, BASE + 32);
    assert_eq!(slab.work().address, BASE + 32);
    assert_eq!(slab.ptrs().address, BASE + 32 + 3 * 8);
    assert_eq!(memory.read::<FreeListNode>(BASE + 32).unwrap().next_free.address, BASE + 40);
    assert_eq!(memory.read::<FreeListNode>(BASE + 40).unwrap().next_free.address, BASE + 48);
    assert_eq!(memory.read::<FreeListNode>(BASE + 48).unwrap().next_free.address, 0);
}

#[test]
fn acquire_and_release_keep_count() {
    let (mut memory, mut slab, this) = build();
    let a = slab.acquire(&mut memory, this).unwrap();
    let b = slab.acquire(&mut memory, this).unwrap();
    assert_eq!(slab.ptr_num(), 2);
    assert_eq!(a.address, BASE + 32);
    assert_eq!(b.address, BASE + 40);
    let c = slab.acquire(&mut memory, this).unwrap();
    assert_eq!(c.address, BASE + 48);
    assert_eq!(slab.ptr_num(), 3);
    assert_eq!(slab.acquire(&mut memory, this).map(|slot| slot.address), Err(Error::Full));
    assert_eq!(slab.ptr_num(), 3);
    slab.release(&mut memory, this, b).unwrap();
    assert_eq!(slab.ptr_num(), 2);
    assert_eq!(slab.free().address, b.address);
    // The slot that was given back is the next to be taken, and no other.
    let again = slab.acquire(&mut memory, this).unwrap();
    assert_eq!(again.address, b.address);
    assert_eq!(slab.acquire(&mut memory, this).map(|slot| slot.address), Err(Error::Full));
    slab.release(&mut memory, this, a).unwrap();
    slab.release(&mut memory, this, c).unwrap();
    slab.release(&mut memory, this, again).unwrap();
    assert_eq!(slab.ptr_num(), 0);
}

#[test]
fn ctor_outside_the_window_fails() {
    let mut memory = Memory::init(BASE, vec![0; 0x100]);
    let this: Pointer<Slab> = Pointer::new(BASE);
    let mut slab = *this.read(&memory).unwrap();
    let far: Pointer<Slab> = Pointer::new(0x80_0000_0000 - 16);
    assert_eq!(
        slab.ctor(&mut memory, far),
        Err(Error::OutOfRange { address: 0x80_0000_0000 - 16, len: 80 })
    );
}
