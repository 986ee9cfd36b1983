use inventory_sim::error::Error;
use inventory_sim::mem::{refuses, Memory, Pointer};

const BASE: u64 = 0x1000_0000;

#[test]
fn read_back_initial_block() {
    let memory = Memory::init(BASE, vec![1, 2, 3, 4]);
    assert_eq!(memory.read_bytes(BASE + 1, 2), Ok(vec![2, 3]));
    assert_eq!(
        memory.read_bytes(BASE + 2, 4),
        Err(Error::Uninitialized { address: BASE + 2, len: 4 })
    );
    assert_eq!(
        memory.read_bytes(0x7ff_ffff, 1),
        Err(Error::OutOfRange { address: 0x7ff_ffff, len: 1 })
    );
}

#[test]
fn write_then_read_gives_the_value() {
    let mut memory = Memory::init(BASE, vec![0; 16]);
    memory.write(BASE + 4, Box::new(0x1234_5678u32)).unwrap();
    assert_eq!(*memory.read::<u32>(BASE + 4).unwrap(), 0x1234_5678);
    assert_eq!(memory.read_bytes(BASE + 4, 4), Ok(vec![0x78, 0x56, 0x34, 0x12]));
    memory.write(BASE + 8, Box::new(-2i32)).unwrap();
    assert_eq!(*memory.read::<i32>(BASE + 8).unwrap(), -2);
    memory.write(BASE, Box::new(0x0102_0304_0506_0708u64)).unwrap();
    assert_eq!(memory.read_bytes(BASE, 8), Ok(vec![8, 7, 6, 5, 4, 3, 2, 1]));
    let pointer: Pointer<i8> = Pointer::new(BASE + 15);
    pointer.write(&mut memory, Box::new(-1i8)).unwrap();
    assert_eq!(*pointer.read(&memory).unwrap(), -1);
    assert_eq!(memory.read_bytes(BASE + 15, 1), Ok(vec![0xff]));
}

#[test]
fn write_bridges_and_absorbs_blocks() {
    let mut memory = Memory::init(BASE, vec![1, 2, 3, 4]);
    // A block of its own, apart from the first.
    memory.write_bytes(BASE + 8, &[9, 9]).unwrap();
    assert_eq!(
        memory.read_bytes(BASE, 10),
        Err(Error::Uninitialized { address: BASE, len: 10 })
    );
    // Swallows the second block, reaches into the first and past the end.
    memory.write_bytes(BASE + 2, &[7; 10]).unwrap();
    assert_eq!(
        memory.read_bytes(BASE, 12),
        Ok(vec![1, 2, 7, 7, 7, 7, 7, 7, 7, 7, 7, 7])
    );
    // Touches the block from before and joins it.
    memory.write_bytes(BASE - 2, &[5, 6]).unwrap();
    assert_eq!(memory.read_bytes(BASE - 2, 4), Ok(vec![5, 6, 1, 2]));
    // Keeps what a later block holds past the end of the range.
    let mut other = Memory::init(BASE + 4, vec![1, 2, 3, 4]);
    other.write_bytes(BASE, &[8; 6]).unwrap();
    assert_eq!(other.read_bytes(BASE, 8), Ok(vec![8, 8, 8, 8, 8, 8, 3, 4]));
}

#[test]
fn write_outside_the_window_changes_nothing() {
    let mut memory = Memory::init(BASE, vec![1, 2, 3, 4]);
    assert_eq!(
        memory.write_bytes(0x80_0000_0000 - 1, &[1, 2]),
        Err(Error::OutOfRange { address: 0x80_0000_0000 - 1, len: 2 })
    );
    assert_eq!(
        memory.write(0x100, Box::new(1u8)),
        Err(Error::OutOfRange { address: 0x100, len: 1 })
    );
    assert_eq!(memory.read_bytes(BASE, 4), Ok(vec![1, 2, 3, 4]));
}

#[test]
fn pointer_arithmetic_wraps_and_casts() {
    let pointer: Pointer<u32> = Pointer::new(BASE);
    assert_eq!((pointer + 8).address, BASE + 8);
    assert_eq!((pointer - 8).address, BASE - 8);
    assert_eq!((Pointer::<u8>::new(0) - 1).address, u64::MAX);
    assert_eq!((Pointer::<u8>::new(u64::MAX) + 2).address, 1);
    assert_eq!(pointer.cast::<u8>().address, BASE);
    assert_eq!(pointer.to_ne().address, BASE);
    assert_eq!(pointer.to_le().address, BASE);
    assert!(pointer == Pointer::new(BASE));
    assert!(Pointer::<u32>::null().is_null());
    assert_eq!(pointer.validate(), Ok(()));
    assert_eq!(
        Pointer::<u32>::new(0x80_0000_0000 - 2).validate(),
        Err(Error::OutOfRange { address: 0x80_0000_0000 - 2, len: 4 })
    );
}

fn sorted_blocks(memory: &Memory) -> Vec<(u64, usize)> {
    let mut blocks = memory.blocks();
    blocks.sort();
    blocks
}

#[test]
fn blocks_never_touch_or_overlap() {
    let mut memory = Memory::init(BASE, vec![1; 4]);
    assert_eq!(sorted_blocks(&memory), vec![(BASE, 4)]);
    memory.write_bytes(BASE + 8, &[2; 4]).unwrap();
    memory.write_bytes(BASE + 16, &[3; 4]).unwrap();
    assert_eq!(sorted_blocks(&memory), vec![(BASE, 4), (BASE + 8, 4), (BASE + 16, 4)]);
    // A store that touches two blocks joins them.
    memory.write_bytes(BASE + 4, &[4; 4]).unwrap();
    assert_eq!(sorted_blocks(&memory), vec![(BASE, 12), (BASE + 16, 4)]);
    // A store inside a block leaves the blocks as they are.
    memory.write_bytes(BASE + 2, &[5; 4]).unwrap();
    assert_eq!(sorted_blocks(&memory), vec![(BASE, 12), (BASE + 16, 4)]);
    // A store over everything leaves one block.
    memory.write_bytes(BASE - 4, &[6; 32]).unwrap();
    assert_eq!(sorted_blocks(&memory), vec![(BASE - 4, 32)]);
    // Every pair of blocks has a gap between them.
    let mut other = Memory::init(BASE, vec![0; 2]);
    for i in 0..20u64 {
        other.write_bytes(BASE + (i * 7) % 40, &[i as u8; 3]).unwrap();
        let blocks = sorted_blocks(&other);
        for pair in blocks.windows(2) {
            assert!(pair[0].0 + (pair[0].1 as u64) < pair[1].0);
        }
    }
}

#[test]
fn empty_data_is_no_block() {
    let mut memory = Memory::init(BASE, vec![]);
    assert_eq!(memory.blocks(), vec![]);
    assert_eq!(memory.read_bytes(BASE, 0), Ok(vec![]));
    assert_eq!(memory.write_bytes(BASE, &[]), Ok(()));
    assert_eq!(memory.blocks(), vec![]);
    assert_eq!(
        memory.read_bytes(BASE, 1),
        Err(Error::Uninitialized { address: BASE, len: 1 })
    );
}

#[test]
fn answer_that_begins_with_n_refuses() {
    assert!(refuses("n\n"));
    assert!(refuses("No"));
    assert!(!refuses("\n"));
    assert!(!refuses(""));
    assert!(!refuses("yes"));
    assert!(!refuses(" n"));
}
