use inventory_sim::error::Error;
use inventory_sim::mem::{Memory, Pointer};
use inventory_sim::string::{FixedSafeString, FixedSafeStringVTable};
use inventory_sim::traits::{Constructor, Updatable};

const BASE: u64 = 0x4000_0000;
const VTABLE: u64 = BASE + 0x200;

type Text = FixedSafeString<64>;

/// Memory that holds a table of virtual functions, and two strings that
/// point at it.
fn build() -> Memory {
    let mut memory = Memory::init(BASE, vec![0x55; 0x300]);
    let function: Pointer = Pointer::new(BASE);
    memory
        .write(
            VTABLE,
            Box::new(FixedSafeStringVTable {
                super_dtor: function,
                super_assure_termination_impl: function,
                dtor: function,
                assure_termination_impl: function,
            }),
        )
        .unwrap();
    memory.write(BASE, Box::new(VTABLE)).unwrap();
    memory.write(BASE + 0x100, Box::new(VTABLE)).unwrap();
    memory
}

fn make(memory: &mut Memory, at: u64, text: &str) -> (Text, Pointer<Text>) {
    let this: Pointer<Text> = Pointer::new(at);
    let mut string = *this.read(memory).unwrap();
    string.ctor(memory, this).unwrap();
    memory.write_bytes(at + 20, text.as_bytes()).unwrap();
    memory.write_bytes(at + 20 + text.len() as u64, &[0]).unwrap();
    string.update(memory, &this).unwrap();
    (string, this)
}

#[test]
fn string_size_is_header_and_buffer_in_whole_words() {
    assert_eq!(Text::size(), 88);
    assert_eq!(FixedSafeString::<4>::size(), 24);
    assert_eq!(FixedSafeString::<5>::size(), 32);
    assert_eq!(FixedSafeStringVTable::size(), 32);
}

#[test]
fn ctor_points_at_the_buffer_and_empties_it() {
    let mut memory = build();
    let this: Pointer<Text> = Pointer::new(BASE);
    let mut string = *this.read(&memory).unwrap();
    string.ctor(&mut memory, this).unwrap();
    assert_eq!(string.vptr().address, VTABLE);
    assert_eq!(string.string_top().address, BASE + 20);
    assert_eq!(string.buffer_size(), 64);
    assert_eq!(string.text(), Vec::<u8>::new());
    assert_eq!(memory.read_bytes(BASE + 20, 1), Ok(vec![0]));
    assert_eq!(memory.read_bytes(BASE + 20 + 63, 1), Ok(vec![0]));
    // The padding after the buffer is as it was.
    assert_eq!(memory.read_bytes(BASE + 84, 4), Ok(vec![0x55; 4]));
}

#[test]
fn ctor_does_not_ask_the_function_table() {
    let mut memory = Memory::init(BASE, vec![0x55; 0x100]);
    let this: Pointer<Text> = Pointer::new(BASE);
    let mut string = *this.read(&memory).unwrap();
    assert_eq!(string.ctor(&mut memory, this), Ok(()));
    assert_eq!(string.vptr().address, 0x5555_5555_5555_5555);
    assert_eq!(string.text(), Vec::<u8>::new());
}

#[test]
fn text_ends_at_the_first_zero_byte() {
    let mut memory = build();
    let (string, _) = make(&mut memory, BASE, "FirstItem");
    assert_eq!(string.text(), b"FirstItem".to_vec());
}

#[test]
fn is_equal_str_compares_up_to_the_end() {
    let mut memory = build();
    let (mut string, this) = make(&mut memory, BASE, "Weapon_Sword_070");
    assert_eq!(string.is_equal_str(&mut memory, this, "Weapon_Sword_070"), Ok(true));
    assert_eq!(string.is_equal_str(&mut memory, this, "Weapon_Sword_071"), Ok(false));
    assert_eq!(string.is_equal_str(&mut memory, this, "Weapon_Sword"), Ok(false));
    assert_eq!(string.is_equal_str(&mut memory, this, "Weapon_Sword_0700"), Ok(false));
    assert_eq!(string.is_equal_str(&mut memory, this, ""), Ok(false));
    string.clear(&mut memory).unwrap();
    assert_eq!(string.is_equal_str(&mut memory, this, ""), Ok(true));
}

#[test]
fn is_equal_compares_two_strings() {
    let mut memory = build();
    let (mut a, at) = make(&mut memory, BASE, "Obj_KorokNuts");
    let (b, _) = make(&mut memory, BASE + 0x100, "Obj_KorokNuts");
    assert_eq!(a.is_equal(&mut memory, at, &b), Ok(true));
    let same = a.clone();
    assert_eq!(a.is_equal(&mut memory, at, &same), Ok(true));
    let (c, _) = make(&mut memory, BASE + 0x100, "Obj_KorokNut");
    assert_eq!(a.is_equal(&mut memory, at, &c), Ok(false));
}

#[test]
fn assure_termination_ends_a_full_buffer() {
    let mut memory = build();
    let (mut string, this) = make(&mut memory, BASE, "x");
    memory.write_bytes(BASE + 20, &[b'y'; 64]).unwrap();
    string.assure_termination_impl(&mut memory, this).unwrap();
    assert_eq!(string.text(), vec![b'y'; 63]);
}

#[test]
fn unreadable_function_table_fails() {
    let mut memory = build();
    memory.write(BASE, Box::new(BASE + 0x1000)).unwrap();
    let this: Pointer<Text> = Pointer::new(BASE);
    let mut string = *this.read(&memory).unwrap();
    assert_eq!(
        string.assure_termination_impl(&mut memory, this),
        Err(Error::Uninitialized { address: BASE + 0x1018, len: 8 })
    );
    // A function outside the valid window is not called.
    memory.write(BASE, Box::new(VTABLE)).unwrap();
    memory.write(VTABLE + 24, Box::new(0x10u64)).unwrap();
    string.update(&memory, &this).unwrap();
    assert_eq!(
        string.assure_termination_impl(&mut memory, this),
        Err(Error::OutOfRange { address: 0x10, len: 1 })
    );
}

#[test]
fn assign_stores_the_text_and_ends_it() {
    let mut memory = build();
    let (mut text, at) = make(&mut memory, BASE, "Old_Name_That_Is_Longer");
    text.assign(&mut memory, at, "Item_Roast").unwrap();
    assert_eq!(text.text(), b"Item_Roast".to_vec());
    assert_eq!(memory.read_bytes(BASE + 20, 11), Ok(b"Item_Roast\0".to_vec()));
    // What lay behind the new end stays.
    assert_eq!(memory.read_bytes(BASE + 31, 4), Ok(b"at_I".to_vec()));
    assert!(text.is_equal_str(&mut memory, at, "Item_Roast").unwrap());
}

#[test]
fn assign_cuts_a_text_that_is_too_long() {
    let mut memory = build();
    let (mut text, at) = make(&mut memory, BASE, "");
    let long = "x".repeat(80);
    text.assign(&mut memory, at, &long).unwrap();
    assert_eq!(text.text(), vec![b'x'; 63]);
    assert_eq!(*memory.read::<u8>(BASE + 20 + 63).unwrap(), 0);
    // The byte behind the buffer is not touched.
    assert_eq!(*memory.read::<u8>(BASE + 20 + 64).unwrap(), 0x55);
}

#[test]
fn assign_outside_the_window_fails() {
    let mut memory = build();
    let (mut text, at) = make(&mut memory, BASE, "");
    memory.write(BASE + 8, Box::new(0x10u64)).unwrap();
    text.update(&memory, &at).unwrap();
    assert_eq!(
        text.assign(&mut memory, at, "abc"),
        Err(Error::OutOfRange { address: 0x10, len: 4 })
    );
}
