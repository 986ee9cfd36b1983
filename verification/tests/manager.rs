use inventory_sim::error::Error;
use inventory_sim::item::PouchItem;
use inventory_sim::list::ListNode;
use inventory_sim::mem::{Memory, Pointer};
use inventory_sim::pmdm::PauseMenuDataMgr;
use inventory_sim::traits::Updatable;
use inventory_sim::types::{PouchCategory, PouchItemType, WeaponModifierInfo};

const THIS: u64 = 0x1000_0000;
const SIZE: usize = 0x44808;
const LIST1: u64 = THIS + 0x68;
const LIST2: u64 = THIS + 0x80;
const BUFFER: u64 = THIS + 0x68 + 48;
const ITEM_SIZE: u64 = 664;
const LIST_HEADS: u64 = THIS + 0x441f8;
const TABS: u64 = THIS + 0x44230;
const LAST_ADDED: u64 = THIS + 0x44488;
const ITEM_444F0: u64 = THIS + 0x444f0;
const NEWLY_ADDED: u64 = THIS + 0x44540;
const CATEGORY_TO_SORT: u64 = THIS + 0x44800;
/// The table of virtual functions of the names: it lies in the buffer of
/// the disposer, which the tests do not use otherwise.
const VTABLE: u64 = THIS + 8;

fn item(i: u64) -> u64 {
    BUFFER + i * ITEM_SIZE
}

fn store_link(memory: &mut Memory, at: u64, prev: u64, next: u64) {
    memory
        .write(at, Box::new(ListNode { prev: Pointer::new(prev), next: Pointer::new(next) }))
        .unwrap();
}

fn store_name(memory: &mut Memory, at: u64, text: &str) {
    memory.write(at, Box::new(VTABLE)).unwrap();
    memory.write(at + 8, Box::new(at + 20)).unwrap();
    memory.write(at + 16, Box::new(64i32)).unwrap();
    memory.write_bytes(at + 20, text.as_bytes()).unwrap();
    memory.write_bytes(at + 20 + text.len() as u64, &[0]).unwrap();
}

fn store_item(memory: &mut Memory, i: u64, kind: PouchItemType, name: &str, value: i32) {
    let at = item(i);
    memory.write(at + 24, Box::new(kind)).unwrap();
    memory.write(at + 32, Box::new(value)).unwrap();
    memory.write(at + 36, Box::new(true)).unwrap();
    memory.write(at + 37, Box::new(true)).unwrap();
    store_name(memory, at + 40, name);
}

/// A snapshot whose list of items in use holds the given items, in their
/// order, in the first slots; all of one kind, which that kind's category
/// begins with the first of them.
fn snapshot(kind: PouchItemType, items: &[(&str, i32)]) -> (Memory, Box<PauseMenuDataMgr>, Pointer<PauseMenuDataMgr>) {
    let mut memory = Memory::init(THIS, vec![0; SIZE]);
    // The function that ends a string: any address inside the valid window.
    memory.write(VTABLE + 24, Box::new(THIS)).unwrap();
    let count = items.len() as u64;
    let ring = |i: i64| -> u64 {
        if i < 0 || i as u64 >= count {
            LIST1
        } else {
            item(i as u64) + 8
        }
    };
    store_link(&mut memory, LIST1, ring(count as i64 - 1), ring(0));
    memory.write(LIST1 + 16, Box::new(count as i32)).unwrap();
    memory.write(LIST1 + 20, Box::new(8i32)).unwrap();
    store_link(&mut memory, LIST2, LIST2, LIST2);
    memory.write(LIST2 + 16, Box::new(0i32)).unwrap();
    memory.write(LIST2 + 20, Box::new(8i32)).unwrap();
    for (i, (name, value)) in items.iter().enumerate() {
        let i = i as u64;
        store_item(&mut memory, i, kind, name, *value);
        store_link(&mut memory, item(i) + 8, ring(i as i64 - 1), ring(i as i64 + 1));
    }
    // The slot after the last item is of no kind: there the run ends.
    memory.write(item(count) + 24, Box::new(PouchItemType::Invalid)).unwrap();
    store_name(&mut memory, NEWLY_ADDED + 40, "");
    if count > 0 {
        let category = match kind {
            PouchItemType::KeyItem => PouchCategory::KeyItem,
            _ => PouchCategory::Sword,
        };
        memory.write(TABS, Box::new(item(0))).unwrap();
        memory.write(LIST_HEADS + 8 * category.raw() as u64, Box::new(TABS)).unwrap();
        memory.write(LAST_ADDED, Box::new(item(0))).unwrap();
    }
    let this: Pointer<PauseMenuDataMgr> = Pointer::new(THIS);
    let manager = this.read(&memory).unwrap();
    (memory, manager, this)
}

fn no_modifier() -> Pointer<WeaponModifierInfo> {
    Pointer::null()
}

#[test]
fn manager_layout_has_the_native_offsets() {
    assert_eq!(PauseMenuDataMgr::size(), 0x44808);
    assert_eq!(PouchItem::size(), 0x298);
    let (_, manager, _) = snapshot(PouchItemType::Sword, &[("FirstItem", 3)]);
    assert_eq!(manager.list1().count, 1);
    assert_eq!(manager.list1().offset, 8);
    assert_eq!(manager.list2().count, 0);
    assert_eq!(manager.last_added_item().address, item(0));
    let first = manager.item_lists().buffer().get(0).unwrap();
    assert_eq!(first.value(), 3);
    assert_eq!(first.item_type(), PouchItemType::Sword);
    assert_eq!(first.name().text(), b"FirstItem".to_vec());
    assert!(first.in_inventory());
    assert!(manager.item_lists().buffer().get(420).is_none());
}

#[test]
fn pause_and_remove_on_a_snapshot_with_one_item() {
    let (mut memory, mut manager, this) = snapshot(PouchItemType::Sword, &[("FirstItem", 3)]);
    let first = manager.list1().nth(&memory, 0).unwrap();
    assert_eq!(first.address, item(0));
    assert_eq!(first.read(&memory).unwrap().name().text(), b"FirstItem".to_vec());
    assert_eq!(manager.pause(&memory, this), Ok(()));
    assert_eq!(manager.list1().count, 1);
    assert_eq!(manager.remove(&mut memory, this, first), Ok(()));
    assert_eq!(manager.list1().count, 0);
    assert!(manager.last_added_item().is_null());
    assert!(manager.list1().nth(&memory, 0).unwrap().is_null());
    assert_eq!(manager.pause(&memory, this), Ok(()));
    // The item itself is as it was.
    assert_eq!(first.read(&memory).unwrap().value(), 3);
}

#[test]
fn remove_keeps_what_it_need_not_forget() {
    let (mut memory, mut manager, this) =
        snapshot(PouchItemType::Sword, &[("A", 1), ("B", 2), ("C", 3)]);
    memory.write(ITEM_444F0, Box::new(item(1))).unwrap();
    manager.sync(&memory, this).unwrap();
    manager.remove(&mut memory, this, Pointer::new(item(1))).unwrap();
    assert_eq!(manager.list1().count, 2);
    assert!(manager.item_444f0().is_null());
    assert_eq!(manager.last_added_item().address, item(0));
    let list = manager.list1();
    assert_eq!(list.nth(&memory, 0).unwrap().address, item(0));
    assert_eq!(list.nth(&memory, 1).unwrap().address, item(2));
    assert!(list.nth(&memory, 2).unwrap().is_null());
}

#[test]
fn pause_fails_on_a_cycle() {
    let (mut memory, mut manager, this) =
        snapshot(PouchItemType::Sword, &[("A", 1), ("B", 2), ("C", 3)]);
    store_link(&mut memory, item(2) + 8, item(1) + 8, item(1) + 8);
    manager.sync(&memory, this).unwrap();
    assert_eq!(manager.list1().count, 3);
    assert_eq!(manager.pause(&memory, this), Err(Error::CorruptList { node: item(1) + 8 }));
    assert_eq!(manager.traverse_list2(&memory, this), Ok(()));
}

#[test]
fn key_item_that_is_present_is_not_picked_up_again() {
    let (mut memory, mut manager, this) =
        snapshot(PouchItemType::KeyItem, &[("Obj_Other", 1), ("Obj_Key", 1)]);
    manager.get(&mut memory, this, "Obj_Key", PouchItemType::KeyItem, 1, no_modifier()).unwrap();
    assert_eq!(manager.list1().count, 2);
    assert_eq!(*memory.read::<i32>(LIST1 + 16).unwrap(), 2);
    // Nothing was put in order: the category to sort is as it was.
    assert_eq!(*memory.read::<i32>(CATEGORY_TO_SORT).unwrap(), 0);
}

#[test]
fn key_item_that_is_dropped_does_not_count_as_present() {
    let (mut memory, mut manager, this) = snapshot(PouchItemType::KeyItem, &[("Obj_Key", 1)]);
    PauseMenuDataMgr::drop(&mut manager, &mut memory, this, Pointer::new(item(0))).unwrap();
    assert!(!Pointer::<PouchItem>::new(item(0)).read(&memory).unwrap().in_inventory());
    manager.get(&mut memory, this, "Obj_Key", PouchItemType::KeyItem, 1, no_modifier()).unwrap();
    // The search found nothing, and the list was put in order.
    assert_eq!(manager.category_to_sort(), PouchCategory::Invalid);
    assert_eq!(manager.list1().count, 1);
}

#[test]
fn repeatable_key_item_is_not_looked_for() {
    let (mut memory, mut manager, this) = snapshot(PouchItemType::KeyItem, &[("Obj_KorokNuts", 1)]);
    manager
        .get(&mut memory, this, "Obj_KorokNuts", PouchItemType::KeyItem, 1, no_modifier())
        .unwrap();
    assert_eq!(manager.category_to_sort(), PouchCategory::Invalid);
    assert_eq!(manager.list1().count, 1);
}

#[test]
fn unique_sword_is_made_new() {
    let (mut memory, mut manager, this) =
        snapshot(PouchItemType::Sword, &[("Weapon_Sword_001", 20), ("Weapon_Sword_070", 40)]);
    memory.write(NEWLY_ADDED + 32, Box::new(7i32)).unwrap();
    manager
        .get(&mut memory, this, "Weapon_Sword_070", PouchItemType::Sword, 40, no_modifier())
        .unwrap();
    let sword = Pointer::<PouchItem>::new(item(1)).read(&memory).unwrap();
    assert_eq!(sword.value(), 0);
    assert!(!sword.equipped());
    assert_eq!(manager.last_added_item().address, item(1));
    assert_eq!(manager.list1().count, 2);
    // The other sword is as it was.
    let other = Pointer::<PouchItem>::new(item(0)).read(&memory).unwrap();
    assert_eq!(other.value(), 20);
    assert!(other.equipped());
    // The copy of the newest item is cleared.
    let newest = manager.newly_added_item();
    assert_eq!(newest.item_type(), PouchItemType::Invalid);
    assert_eq!(newest.value(), 0);
    assert!(!newest.in_inventory());
    assert_eq!(newest.data().cook().effect_id(), 0xbf80_0000);
    assert_eq!(newest.data().cook().effect_level(), 0);
}

#[test]
fn unique_sword_that_was_worn_out_is_not_the_newest() {
    let (mut memory, mut manager, this) =
        snapshot(PouchItemType::Sword, &[("Weapon_Sword_070", 0)]);
    manager
        .get(&mut memory, this, "Weapon_Sword_070", PouchItemType::Sword, 40, no_modifier())
        .unwrap();
    assert!(manager.last_added_item().is_null());
    let sword = Pointer::<PouchItem>::new(item(0)).read(&memory).unwrap();
    assert_eq!(sword.value(), 0);
    assert!(!sword.equipped());
    let (mut memory, mut manager, this) =
        snapshot(PouchItemType::Sword, &[("Weapon_Sword_070", -5)]);
    manager
        .get(&mut memory, this, "Weapon_Sword_070", PouchItemType::Sword, 40, no_modifier())
        .unwrap();
    assert!(manager.last_added_item().is_null());
}

#[test]
fn nothing_is_picked_up_of_no_kind() {
    let (mut memory, mut manager, this) = snapshot(PouchItemType::Sword, &[("A", 1)]);
    manager.get(&mut memory, this, "A", PouchItemType::Invalid, 1, no_modifier()).unwrap();
    assert_eq!(*memory.read::<i32>(CATEGORY_TO_SORT).unwrap(), 0);
    manager.get(&mut memory, this, "A", PouchItemType::Food, 1, no_modifier()).unwrap();
    assert_eq!(manager.category_to_sort(), PouchCategory::Invalid);
}

#[test]
fn value_and_flags_are_stored_in_the_item() {
    let (mut memory, mut manager, this) = snapshot(PouchItemType::Bow, &[("Weapon_Bow_001", 30)]);
    let bow: Pointer<PouchItem> = Pointer::new(item(0));
    manager.set_value(&mut memory, this, bow, -12).unwrap();
    assert_eq!(bow.read(&memory).unwrap().value(), -12);
    assert_eq!(manager.item_lists().buffer().get(0).unwrap().value(), -12);
    manager.unequip(&mut memory, this, bow).unwrap();
    assert!(!bow.read(&memory).unwrap().equipped());
    manager.equip(&mut memory, this, bow).unwrap();
    assert!(bow.read(&memory).unwrap().equipped());
    PauseMenuDataMgr::drop(&mut manager, &mut memory, this, bow).unwrap();
    assert!(!bow.read(&memory).unwrap().in_inventory());
    assert_eq!(manager.list1().count, 1);
    assert_eq!(
        manager.set_value(&mut memory, this, Pointer::new(0x20), 1),
        Err(Error::OutOfRange { address: 0x40, len: 4 })
    );
}

#[test]
fn offset_moves_counts_between_the_lists() {
    let (mut memory, mut manager, this) =
        snapshot(PouchItemType::Sword, &[("A", 1), ("B", 2), ("C", 3)]);
    manager.offset(&mut memory, this, 2).unwrap();
    assert_eq!(manager.list1().count, 1);
    assert_eq!(manager.list2().count, 2);
    // The elements are where they were.
    assert_eq!(manager.list1().start_end.next.address, item(0) + 8);
    assert_eq!(manager.pause(&memory, this), Ok(()));
    manager.offset(&mut memory, this, 5).unwrap();
    assert_eq!(manager.list1().count, -4);
    assert_eq!(manager.list2().count, 7);
}

#[test]
fn reset_forgets_the_newest_item() {
    let (mut memory, mut manager, this) = snapshot(PouchItemType::Sword, &[("A", 1)]);
    memory.write(ITEM_444F0, Box::new(item(0))).unwrap();
    manager.reset_item_and_pointers(&mut memory, this).unwrap();
    assert!(manager.last_added_item().is_null());
    assert!(manager.item_444f0().is_null());
    assert_eq!(manager.word_444f8(), -1);
    assert_eq!(manager.newly_added_item().item_type(), PouchItemType::Invalid);
}

#[test]
fn save_is_empty_and_load_reads_memory_again() {
    let (mut memory, mut manager, this) = snapshot(PouchItemType::Sword, &[("A", 1)]);
    let file = manager.save(&memory, this);
    assert!(file.is_empty());
    memory.write(LIST1 + 16, Box::new(9i32)).unwrap();
    assert_eq!(manager.list1().count, 1);
    manager.load(&memory, this, file).unwrap();
    assert_eq!(manager.list1().count, 9);
}

#[test]
fn manager_that_is_not_in_memory_cannot_be_synced() {
    let (memory, mut manager, _) = snapshot(PouchItemType::Sword, &[("A", 1)]);
    let elsewhere: Pointer<PauseMenuDataMgr> = Pointer::new(THIS + 8);
    assert_eq!(
        manager.sync(&memory, elsewhere),
        Err(Error::Uninitialized { address: THIS + 8, len: SIZE })
    );
    assert_eq!(manager.list1().count, 1);
}

/// Makes the given slots the unused slots of the snapshot, in their order.
/// Each holds what is left of an item: the name's table of functions.
fn spare(memory: &mut Memory, slots: &[u64]) {
    for slot in slots {
        memory.write(item(*slot) + 40, Box::new(VTABLE)).unwrap();
    }
    let count = slots.len() as i64;
    let ring = |i: i64| -> u64 {
        if i < 0 || i >= count {
            LIST2
        } else {
            item(slots[i as usize]) + 8
        }
    };
    store_link(memory, LIST2, ring(count - 1), ring(0));
    memory.write(LIST2 + 16, Box::new(count as i32)).unwrap();
    for i in 0..count {
        store_link(memory, ring(i), ring(i - 1), ring(i + 1));
    }
}

#[test]
fn new_item_takes_the_first_unused_slot() {
    let (mut memory, mut manager, this) = snapshot(PouchItemType::Food, &[("Item_Fruit", 2)]);
    spare(&mut memory, &[2, 3]);
    manager.sync(&memory, this).unwrap();
    manager.get(&mut memory, this, "Item_Roast", PouchItemType::Food, 5, no_modifier()).unwrap();
    assert_eq!(manager.list1().count, 2);
    assert_eq!(manager.list2().count, 1);
    let added: Pointer<PouchItem> = Pointer::new(item(2));
    let new = added.read(&memory).unwrap();
    assert_eq!(new.item_type(), PouchItemType::Food);
    assert_eq!(new.value(), 5);
    assert!(new.in_inventory());
    assert!(!new.equipped());
    assert_eq!(new.name().text(), b"Item_Roast".to_vec());
    // The new item is the last of the items in use.
    let list1 = manager.list1();
    assert_eq!(list1.nth(&memory, 0).map(|p| p.address), Ok(item(0)));
    assert_eq!(list1.nth(&memory, 1).map(|p| p.address), Ok(item(2)));
    assert_eq!(list1.nth(&memory, 2).map(|p| p.address), Ok(0));
    assert_eq!(new.list_node().prev.address, item(0) + 8);
    assert_eq!(new.list_node().next.address, LIST1);
    assert_eq!(manager.list1().start_end.prev.address, item(2) + 8);
    // The slot after it is the first of the unused slots now.
    let list2 = manager.list2();
    assert_eq!(list2.nth(&memory, 0).map(|p| p.address), Ok(item(3)));
    assert_eq!(list2.nth(&memory, 1).map(|p| p.address), Ok(0));
    assert_eq!(manager.pause(&memory, this), Ok(()));
    assert_eq!(manager.traverse_list2(&memory, this), Ok(()));
    assert_eq!(manager.category_to_sort(), PouchCategory::Invalid);
}

#[test]
fn key_item_that_is_not_present_is_picked_up() {
    let (mut memory, mut manager, this) = snapshot(PouchItemType::KeyItem, &[("Obj_Other", 1)]);
    spare(&mut memory, &[1]);
    manager.sync(&memory, this).unwrap();
    manager.get(&mut memory, this, "Obj_Key", PouchItemType::KeyItem, 1, no_modifier()).unwrap();
    assert_eq!(manager.list1().count, 2);
    assert_eq!(manager.list2().count, 0);
    // Picked up a second time, it is present.
    manager.get(&mut memory, this, "Obj_Key", PouchItemType::KeyItem, 1, no_modifier()).unwrap();
    assert_eq!(manager.list1().count, 2);
}

#[test]
fn new_item_is_not_added_without_an_unused_slot() {
    let (mut memory, mut manager, this) = snapshot(PouchItemType::Food, &[("Item_Fruit", 2)]);
    manager.get(&mut memory, this, "Item_Roast", PouchItemType::Food, 5, no_modifier()).unwrap();
    assert_eq!(manager.list1().count, 1);
    assert_eq!(manager.list2().count, 0);
    assert_eq!(manager.category_to_sort(), PouchCategory::Invalid);
}

#[test]
fn add_then_remove_leaves_the_list_as_it_was() {
    let (mut memory, mut manager, this) = snapshot(PouchItemType::Food, &[("Item_Fruit", 2)]);
    spare(&mut memory, &[4]);
    manager.sync(&memory, this).unwrap();
    manager.add(&mut memory, this, "Item_Roast", PouchItemType::Food, 5).unwrap();
    assert_eq!(manager.list1().count, 2);
    manager.remove(&mut memory, this, Pointer::new(item(4))).unwrap();
    assert_eq!(manager.list1().count, 1);
    assert_eq!(manager.list1().start_end.next.address, item(0) + 8);
    assert_eq!(manager.list1().start_end.prev.address, item(0) + 8);
    assert_eq!(manager.pause(&memory, this), Ok(()));
}

fn head_of(manager: &PauseMenuDataMgr, memory: &Memory, category: PouchCategory) -> u64 {
    manager.get_item_head(memory, category).unwrap().address
}

#[test]
fn heads_are_the_first_items_of_the_categories() {
    let (mut memory, mut manager, this) = snapshot(PouchItemType::Food, &[]);
    spare(&mut memory, &[0, 1, 2, 3, 4]);
    manager.sync(&memory, this).unwrap();
    let picked = [
        ("Weapon_Sword_001", PouchItemType::Sword),
        ("NormalArrow", PouchItemType::Arrow),
        ("Weapon_Bow_001", PouchItemType::Bow),
        ("Item_Roast", PouchItemType::Food),
        ("Weapon_Sword_002", PouchItemType::Sword),
    ];
    for (name, kind) in picked {
        manager.get(&mut memory, this, name, kind, 1, no_modifier()).unwrap();
    }
    assert_eq!(manager.list1().count, 5);
    assert_eq!(manager.list2().count, 0);
    assert_eq!(head_of(&manager, &memory, PouchCategory::Sword), item(0));
    // Arrows are listed with the bows, and the arrows came first.
    assert_eq!(head_of(&manager, &memory, PouchCategory::Bow), item(1));
    assert_eq!(head_of(&manager, &memory, PouchCategory::Food), item(3));
    assert_eq!(head_of(&manager, &memory, PouchCategory::Shield), 0);
    assert_eq!(head_of(&manager, &memory, PouchCategory::Armor), 0);
    assert_eq!(head_of(&manager, &memory, PouchCategory::Material), 0);
    assert_eq!(head_of(&manager, &memory, PouchCategory::KeyItem), 0);
    assert_eq!(head_of(&manager, &memory, PouchCategory::Invalid), 0);
    // The head of a category is the address of its cell, the cell holds the item.
    assert_eq!(*memory.read::<u64>(LIST_HEADS).unwrap(), TABS);
    assert_eq!(*memory.read::<u64>(TABS).unwrap(), item(0));
    assert_eq!(*memory.read::<u64>(LIST_HEADS + 8).unwrap(), TABS + 8);
    assert_eq!(*memory.read::<u64>(LIST_HEADS + 16).unwrap(), 0);
    assert_eq!(*memory.read::<u64>(TABS + 16).unwrap(), 0);
}

#[test]
fn key_item_picked_up_into_an_empty_pouch_is_present_afterwards() {
    let (mut memory, mut manager, this) = snapshot(PouchItemType::KeyItem, &[]);
    spare(&mut memory, &[7, 8]);
    manager.sync(&memory, this).unwrap();
    manager.get(&mut memory, this, "Obj_Key", PouchItemType::KeyItem, 1, no_modifier()).unwrap();
    assert_eq!(manager.list1().count, 1);
    assert_eq!(head_of(&manager, &memory, PouchCategory::KeyItem), item(7));
    manager.get(&mut memory, this, "Obj_Key", PouchItemType::KeyItem, 1, no_modifier()).unwrap();
    assert_eq!(manager.list1().count, 1);
    assert_eq!(manager.list2().count, 1);
    // Another key item is picked up.
    manager.get(&mut memory, this, "Obj_Other", PouchItemType::KeyItem, 1, no_modifier()).unwrap();
    assert_eq!(manager.list1().count, 2);
    assert_eq!(head_of(&manager, &memory, PouchCategory::KeyItem), item(7));
}

#[test]
fn heads_of_a_list_without_end_are_not_noted() {
    let (mut memory, mut manager, this) =
        snapshot(PouchItemType::Sword, &[("A", 1), ("B", 2), ("C", 3)]);
    store_link(&mut memory, item(2) + 8, item(1) + 8, item(1) + 8);
    manager.sync(&memory, this).unwrap();
    assert_eq!(
        manager.update_list_heads(&mut memory, this),
        Err(Error::CorruptList { node: item(2) })
    );
}

#[test]
fn heads_are_noted_for_a_snapshot_as_it_is() {
    let (mut memory, mut manager, this) =
        snapshot(PouchItemType::Shield, &[("Weapon_Shield_001", 10), ("Weapon_Shield_002", 20)]);
    manager.update_list_heads(&mut memory, this).unwrap();
    assert_eq!(head_of(&manager, &memory, PouchCategory::Shield), item(0));
    assert_eq!(head_of(&manager, &memory, PouchCategory::Sword), 0);
    assert_eq!(manager.list1().count, 2);
    assert_eq!(manager.pause(&memory, this), Ok(()));
}
