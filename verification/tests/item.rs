use inventory_sim::item::PouchItem;
use inventory_sim::mem::{Memory, Pointer};
use inventory_sim::traits::{Constructor, Updatable};
use inventory_sim::types::{ItemUse, PouchItemType};

const BASE: u64 = 0x5000_0000;
const VTABLE: u64 = BASE + 0x400;

#[test]
fn ctor_builds_an_empty_item() {
    let mut memory = Memory::init(BASE, vec![0x77; 0x500]);
    memory.write(BASE + 40, Box::new(VTABLE)).unwrap();
    let this: Pointer<PouchItem> = Pointer::new(BASE);
    let mut item = *this.read(&memory).unwrap();
    item.ctor(&mut memory, this).unwrap();
    assert_eq!(item.item_type(), PouchItemType::Invalid);
    assert_eq!(item.item_use(), ItemUse::Invalid);
    assert_eq!(item.value(), 0);
    assert!(!item.equipped());
    assert!(item.in_inventory());
    assert_eq!(item.list_node().prev.address, 0);
    assert_eq!(item.list_node().next.address, 0);
    assert_eq!(item.name().string_top().address, BASE + 60);
    assert_eq!(item.name().buffer_size(), 64);
    assert_eq!(item.name().text(), Vec::<u8>::new());
    assert_eq!(item.data().cook().health_recover(), 0);
    assert_eq!(item.data().cook().effect_id(), 0xbf80_0000);
    assert_eq!(item.data().cook().effect_level(), 0);
    assert_eq!(item.data().weapon().modifier_value(), 0);
    // Five names of ingredients are in use: no slot is free.
    let slab = item.ingredients();
    assert_eq!(slab.ptr_num(), 5);
    assert_eq!(slab.ptr_num_max(), 5);
    assert!(slab.free().is_null());
    assert_eq!(slab.work().address, BASE + 152 + 32);
    assert_eq!(slab.ptrs().address, BASE + 152 + 32 + 5 * 88);
    for slot in 0..5u64 {
        let at = BASE + 152 + 32 + slot * 88;
        assert_eq!(*memory.read::<u64>(slab.ptrs().address + slot * 8).unwrap(), at);
        // The name in the slot points at its own buffer and is empty.
        assert_eq!(*memory.read::<u64>(at + 8).unwrap(), at + 20);
        assert_eq!(*memory.read::<i32>(at + 16).unwrap(), 64);
        assert_eq!(*memory.read::<u8>(at + 20).unwrap(), 0);
    }
    // The padding of the item is as it was.
    assert_eq!(memory.read_bytes(BASE + 38, 2), Ok(vec![0x77; 2]));
    assert_eq!(memory.read_bytes(BASE + 148, 4), Ok(vec![0x77; 4]));
    // The pointers to the tables of virtual functions are as they were.
    assert_eq!(memory.read_bytes(BASE, 8), Ok(vec![0x77; 8]));
    assert_eq!(item.name().vptr().address, VTABLE);
}

#[test]
fn fill_states_kind_value_and_name() {
    let mut memory = Memory::init(BASE, vec![0x77; 664]);
    memory.write(BASE + 40, Box::new(VTABLE)).unwrap();
    let this: Pointer<PouchItem> = Pointer::new(BASE);
    let mut item = *this.read(&memory).unwrap();
    item.ctor(&mut memory, this).unwrap();
    item.fill(&mut memory, this, "Item_Roast", PouchItemType::Food, 3).unwrap();
    assert_eq!(item.item_type(), PouchItemType::Food);
    assert_eq!(item.value(), 3);
    assert_eq!(item.name().text(), b"Item_Roast".to_vec());
    assert!(item.in_inventory());
    assert!(!item.equipped());
    assert_eq!(item.item_use(), ItemUse::Invalid);
    assert_eq!(*memory.read::<i32>(BASE + 24).unwrap(), PouchItemType::Food.raw());
    assert_eq!(*memory.read::<i32>(BASE + 32).unwrap(), 3);
}
