//! A sparse address space: the bytes of a captured process, kept as blocks
//! that never touch, and a typed pointer into it.
use std::collections::HashMap;
use std::marker::PhantomData;
use vstd::bytes::*;
use vstd::prelude::*;
use vstd::std_specs::cmp::PartialEqSpecImpl;
use vstd::std_specs::hash::*;
use vstd::std_specs::ops::{AddSpecImpl, SubSpecImpl};
use vstd::string::StringSliceAdditionalSpecFns;
use vstd::std_specs::iter::IteratorSpec;

use crate::error::Error;
use crate::traits::Updatable;

verus! {

broadcast use vstd::std_specs::hash::group_hash_axioms;

/// First address of the window in which every access must lie.
pub const ASLR_START: u64 = 0x800_0000;

/// First address past the window in which every access must lie.
pub const ASLR_END: u64 = 0x80_0000_0000;

/// The address that `a` names in a 64-bit address space.
pub open spec fn wrap(a: int) -> u64 {
    (a % 0x1_0000_0000_0000_0000) as u64
}

/// The address `offset` bytes away from `address`, forwards or backwards.
pub fn shifted(address: u64, offset: i64) -> (r: u64)
    ensures
        r == wrap(address + offset),
{
    if offset >= 0 {
        address.wrapping_add(offset as u64)
    } else if offset == i64::MIN {
        address.wrapping_sub(0x8000_0000_0000_0000)
    } else {
        address.wrapping_sub((-offset) as u64)
    }
}

/// Whether the `len` bytes at `address` lie inside the valid window.
pub open spec fn in_window(address: int, len: int) -> bool {
    ASLR_START <= address && address + len <= ASLR_END
}

/// Whether the block stored at `base` holds the byte at address `a`.
pub open spec fn in_block(blocks: Map<u64, Seq<u8>>, base: u64, a: int) -> bool {
    blocks.contains_key(base) && base <= a < base + blocks[base].len()
}

/// No block is empty, and between any two blocks lies at least one byte that
/// belongs to neither: blocks neither overlap nor touch.
pub open spec fn separated(blocks: Map<u64, Seq<u8>>) -> bool {
    &&& forall|b: u64| #[trigger] blocks.contains_key(b) ==> blocks[b].len() > 0
    &&& forall|a: u64, b: u64|
        #![trigger blocks.contains_key(a), blocks.contains_key(b)]
        blocks.contains_key(a) && blocks.contains_key(b) && a < b ==> a + blocks[a].len() < b
}

/// The bytes that a set of blocks holds, by address.
pub open spec fn block_bytes(blocks: Map<u64, Seq<u8>>) -> Map<int, u8> {
    Map::new(
        |a: int| exists|b: u64| in_block(blocks, b, a),
        |a: int|
            {
                let b = choose|b: u64| in_block(blocks, b, a);
                blocks[b][a - b]
            },
    )
}

/// The bytes by address after `data` has been stored at `address`.
pub open spec fn written(before: Map<int, u8>, address: int, data: Seq<u8>) -> Map<int, u8> {
    Map::new(
        |a: int| before.contains_key(a) || address <= a < address + data.len(),
        |a: int|
            if address <= a < address + data.len() {
                data[a - address]
            } else {
                before[a]
            },
    )
}

/// Whether each of the `len` bytes at `address` is stored.
pub open spec fn covered(bytes: Map<int, u8>, address: int, len: int) -> bool {
    forall|a: int| address <= a < address + len ==> bytes.contains_key(a)
}

/// The `len` stored bytes at `address`.
pub open spec fn bytes_at(bytes: Map<int, u8>, address: int, len: int) -> Seq<u8> {
    Seq::new(len as nat, |i: int| bytes[address + i])
}

/// What reading `len` bytes at `address` gives.
pub open spec fn read_at(bytes: Map<int, u8>, address: u64, len: usize) -> Result<Seq<u8>, Error> {
    if !in_window(address as int, len as int) {
        Err(Error::OutOfRange { address, len })
    } else if !covered(bytes, address as int, len as int) {
        Err(Error::Uninitialized { address, len })
    } else {
        Ok(bytes_at(bytes, address as int, len as int))
    }
}

/// What storing `data` at `address` gives: the bytes afterwards, or the
/// failure that leaves them as they are.
pub open spec fn write_at(bytes: Map<int, u8>, address: u64, data: Seq<u8>) -> Result<
    Map<int, u8>,
    Error,
> {
    if in_window(address as int, data.len() as int) {
        Ok(written(bytes, address as int, data))
    } else {
        Err(Error::OutOfRange { address, len: data.len() as usize })
    }
}

/// What reading a `T` at `address` gives.
pub open spec fn load<T: Updatable>(bytes: Map<int, u8>, address: u64) -> Result<T::V, Error> {
    match read_at(bytes, address, T::layout_size()) {
        Ok(image) => Ok(T::decode(image)),
        Err(e) => Err(e),
    }
}

/// What storing the `T` of view `value` at `address` gives.
pub open spec fn store<T: Updatable>(bytes: Map<int, u8>, address: u64, value: T::V) -> Result<
    Map<int, u8>,
    Error,
> {
    write_at(bytes, address, T::encode(value))
}

/// A store changes no byte outside the range it stores to.
pub proof fn lemma_written_outside(
    bytes: Map<int, u8>,
    address: int,
    data: Seq<u8>,
    other: int,
    len: int,
)
    requires
        0 <= len,
        other + len <= address || address + data.len() <= other,
    ensures
        covered(written(bytes, address, data), other, len) == covered(bytes, other, len),
        covered(bytes, other, len) ==> bytes_at(written(bytes, address, data), other, len)
            == bytes_at(bytes, other, len),
{
    let after = written(bytes, address, data);
    if covered(bytes, other, len) {
        assert(covered(after, other, len));
        assert forall|i: int| 0 <= i < len implies bytes_at(after, other, len)[i] == bytes_at(
            bytes,
            other,
            len,
        )[i] by {
            assert(bytes.contains_key(other + i));
        }
        assert(bytes_at(after, other, len) =~= bytes_at(bytes, other, len));
    }
    if covered(after, other, len) {
        assert forall|a: int| other <= a < other + len implies bytes.contains_key(a) by {
            assert(after.contains_key(a));
        }
    }
}

/// After a store the range stored to holds the data.
pub proof fn lemma_written_inside(bytes: Map<int, u8>, address: int, data: Seq<u8>)
    ensures
        covered(written(bytes, address, data), address, data.len() as int),
        bytes_at(written(bytes, address, data), address, data.len() as int) == data,
{
    let after = written(bytes, address, data);
    assert(bytes_at(after, address, data.len() as int) =~= data);
}

/// What was stored before a store is stored after it.
pub proof fn lemma_written_covered(
    bytes: Map<int, u8>,
    address: int,
    data: Seq<u8>,
    other: int,
    len: int,
)
    requires
        covered(bytes, other, len),
    ensures
        covered(written(bytes, address, data), other, len),
{
    let after = written(bytes, address, data);
    assert forall|a: int| other <= a < other + len implies after.contains_key(a) by {
        assert(bytes.contains_key(a));
    }
}

/// The bytes of a range are the bytes of its two parts, one after the other.
pub proof fn lemma_bytes_at_split(bytes: Map<int, u8>, address: int, len: int, mid: int)
    requires
        0 <= mid <= len,
    ensures
        bytes_at(bytes, address, len).subrange(0, mid) == bytes_at(bytes, address, mid),
        bytes_at(bytes, address, len).subrange(mid, len) == bytes_at(bytes, address + mid, len - mid),
        covered(bytes, address, len) == (covered(bytes, address, mid) && covered(
            bytes,
            address + mid,
            len - mid,
        )),
{
    assert(bytes_at(bytes, address, len).subrange(0, mid) =~= bytes_at(bytes, address, mid));
    assert(bytes_at(bytes, address, len).subrange(mid, len) =~= bytes_at(
        bytes,
        address + mid,
        len - mid,
    ));
    if covered(bytes, address, mid) && covered(bytes, address + mid, len - mid) {
        assert forall|a: int| address <= a < address + len implies bytes.contains_key(a) by {
            if a < address + mid {
            } else {
            }
        }
    }
    if covered(bytes, address, len) {
        assert forall|a: int| address <= a < address + mid implies bytes.contains_key(a) by {}
        assert forall|a: int| address + mid <= a < address + len implies bytes.contains_key(a) by {}
    }
}

/// A store changes no value that lies outside the range it stores to.
pub proof fn lemma_load_outside<B: Updatable>(
    bytes: Map<int, u8>,
    address: int,
    data: Seq<u8>,
    other: u64,
)
    requires
        other + B::layout_size() <= address || address + data.len() <= other,
    ensures
        load::<B>(written(bytes, address, data), other) == load::<B>(bytes, other),
{
    lemma_written_outside(bytes, address, data, other as int, B::layout_size() as int);
}

/// Two memories hold the same bytes in the `len` places from `address` on.
pub open spec fn same_bytes(before: Map<int, u8>, after: Map<int, u8>, address: int, len: int) -> bool {
    forall|a: int|
        #![trigger after.contains_key(a)]
        #![trigger before.contains_key(a)]
        address <= a < address + len ==> after.contains_key(a) == before.contains_key(a) && (
        before.contains_key(a) ==> after[a] == before[a])
}

/// `after` holds what `before` holds, at the same addresses, but for the
/// bytes from `address` up to `address + len`, which may differ.
pub open spec fn same_but(before: Map<int, u8>, after: Map<int, u8>, address: int, len: int) -> bool {
    &&& forall|a: int| #[trigger] after.contains_key(a) == before.contains_key(a)
    &&& forall|a: int|
        before.contains_key(a) && !(address <= a < address + len) ==> #[trigger] after[a]
            == before[a]
}

/// Memories that differ in one range only hold the same bytes in every
/// range that shares no byte with it.
pub proof fn lemma_same_but_apart(
    before: Map<int, u8>,
    after: Map<int, u8>,
    address: int,
    len: int,
    other: int,
    other_len: int,
)
    requires
        same_but(before, after, address, len),
        other + other_len <= address || address + len <= other,
    ensures
        same_bytes(before, after, other, other_len),
{
}

/// Memories that differ from a third in one range only differ from one
/// another in that range only.
pub proof fn lemma_same_but_chain(
    first: Map<int, u8>,
    second: Map<int, u8>,
    third: Map<int, u8>,
    address: int,
    len: int,
)
    requires
        same_but(first, second, address, len),
        same_but(second, third, address, len),
    ensures
        same_but(first, third, address, len),
{
    assert forall|a: int| #[trigger] third.contains_key(a) == first.contains_key(a) by {
        assert(second.contains_key(a) == first.contains_key(a));
    }
    assert forall|a: int| first.contains_key(a) && !(address <= a < address + len) implies #[trigger] third[a]
        == first[a] by {
        assert(second.contains_key(a));
        assert(second[a] == first[a]);
    }
}

/// Memories that differ in one range only differ only in every range that
/// holds it.
pub proof fn lemma_same_but_wider(
    before: Map<int, u8>,
    after: Map<int, u8>,
    address: int,
    len: int,
    wider: int,
    wider_len: int,
)
    requires
        same_but(before, after, address, len),
        wider <= address,
        address + len <= wider + wider_len,
    ensures
        same_but(before, after, wider, wider_len),
{
}

/// A store to bytes that are stored changes the range it stores to only.
pub proof fn lemma_written_same_but(bytes: Map<int, u8>, address: int, data: Seq<u8>)
    requires
        covered(bytes, address, data.len() as int),
    ensures
        same_but(bytes, written(bytes, address, data), address, data.len() as int),
{
    let after = written(bytes, address, data);
    assert forall|a: int| #[trigger] after.contains_key(a) == bytes.contains_key(a) by {
        if address <= a < address + data.len() {
            assert(bytes.contains_key(a));
        }
    }
}

/// A store to bytes that are stored leaves every place outside its range
/// as it was.
pub proof fn lemma_written_same_bytes(
    bytes: Map<int, u8>,
    address: int,
    data: Seq<u8>,
    other: int,
    len: int,
)
    requires
        other + len <= address || address + data.len() <= other,
    ensures
        same_bytes(bytes, written(bytes, address, data), other, len),
{
}

/// Memories that hold the same bytes in some places hold the same bytes in
/// each part of them; and the same bytes as a third memory that one of them
/// shares the places with.
pub proof fn lemma_same_bytes_part(
    before: Map<int, u8>,
    after: Map<int, u8>,
    address: int,
    len: int,
    part: int,
    part_len: int,
)
    requires
        same_bytes(before, after, address, len),
        address <= part,
        part + part_len <= address + len,
    ensures
        same_bytes(before, after, part, part_len),
{
}

/// Memories that hold the same bytes as a third hold the same bytes.
pub proof fn lemma_same_bytes_chain(
    first: Map<int, u8>,
    second: Map<int, u8>,
    third: Map<int, u8>,
    address: int,
    len: int,
)
    requires
        same_bytes(first, second, address, len),
        same_bytes(second, third, address, len),
    ensures
        same_bytes(first, third, address, len),
{
    assert forall|a: int|
        #![trigger third.contains_key(a)]
        #![trigger first.contains_key(a)]
        address <= a < address + len implies third.contains_key(a) == first.contains_key(a) && (
    first.contains_key(a) ==> third[a] == first[a]) by {
        assert(second.contains_key(a) == first.contains_key(a));
    }
}

/// Memories that hold the same bytes where a value lies hold the same value
/// there.
pub proof fn lemma_load_same<A: Updatable>(before: Map<int, u8>, after: Map<int, u8>, address: u64)
    requires
        same_bytes(before, after, address as int, A::layout_size() as int),
    ensures
        load::<A>(after, address) == load::<A>(before, address),
{
    let len = A::layout_size() as int;
    if covered(before, address as int, len) {
        assert(covered(after, address as int, len));
        assert forall|i: int| 0 <= i < len implies bytes_at(after, address as int, len)[i]
            == bytes_at(before, address as int, len)[i] by {
            assert(before.contains_key(address + i));
        }
        assert(bytes_at(after, address as int, len) =~= bytes_at(before, address as int, len));
    }
    if covered(after, address as int, len) {
        assert(covered(before, address as int, len));
    }
}

/// In separated blocks an address belongs to at most one block.
pub proof fn lemma_block_unique(blocks: Map<u64, Seq<u8>>, b1: u64, b2: u64, a: int)
    requires
        separated(blocks),
        in_block(blocks, b1, a),
        in_block(blocks, b2, a),
    ensures
        b1 == b2,
{
}

/// The byte at an address is the byte of the block that holds the address.
pub proof fn lemma_block_byte(blocks: Map<u64, Seq<u8>>, b: u64, a: int)
    requires
        separated(blocks),
        in_block(blocks, b, a),
    ensures
        block_bytes(blocks).contains_key(a),
        block_bytes(blocks)[a] == blocks[b][a - b],
{
    let c = choose|c: u64| in_block(blocks, c, a);
    lemma_block_unique(blocks, b, c, a);
}

/// A run of addresses that all hold a byte lies inside one block.
pub proof fn lemma_run_in_block(blocks: Map<u64, Seq<u8>>, address: int, len: int) -> (b: u64)
    requires
        separated(blocks),
        len > 0,
        forall|a: int| address <= a < address + len ==> block_bytes(blocks).contains_key(a),
    ensures
        blocks.contains_key(b),
        b <= address,
        address + len <= b + blocks[b].len(),
{
    assert(block_bytes(blocks).contains_key(address));
    let b = choose|b: u64| in_block(blocks, b, address);
    if address + len > b + blocks[b].len() {
        let e = b + blocks[b].len();
        assert(block_bytes(blocks).contains_key(e));
        let c = choose|c: u64| in_block(blocks, c, e);
        assert(blocks.contains_key(b) && blocks.contains_key(c));
        assert(false);
    }
    b
}

/// Separated blocks are the runs of stored bytes: each block begins where a
/// byte is stored and the byte before it is not, and ends likewise.
proof fn lemma_block_is_run(blocks: Map<u64, Seq<u8>>, b: u64)
    requires
        separated(blocks),
        blocks.contains_key(b),
    ensures
        !block_bytes(blocks).contains_key(b - 1),
        !block_bytes(blocks).contains_key(b + blocks[b].len()),
        forall|a: int| b <= a < b + blocks[b].len() ==> block_bytes(blocks).contains_key(a),
{
    let before = b - 1;
    if block_bytes(blocks).contains_key(before) {
        let c = choose|c: u64| in_block(blocks, c, before);
        assert(blocks.contains_key(c) && blocks.contains_key(b));
    }
    let e = b + blocks[b].len();
    if block_bytes(blocks).contains_key(e) {
        let c = choose|c: u64| in_block(blocks, c, e);
        assert(blocks.contains_key(c) && blocks.contains_key(b));
    }
    assert forall|a: int| b <= a < b + blocks[b].len() implies block_bytes(blocks).contains_key(
        a,
    ) by {
        lemma_block_byte(blocks, b, a);
    }
}

/// What separated blocks hold decides the blocks: two memories that hold
/// the same bytes hold them in the same blocks.
pub proof fn lemma_blocks_determined(x: Map<u64, Seq<u8>>, y: Map<u64, Seq<u8>>)
    requires
        separated(x),
        separated(y),
        block_bytes(x) == block_bytes(y),
    ensures
        x == y,
{
    assert forall|b: u64| x.contains_key(b) implies y.contains_key(b) && x[b] == y[b] by {
        lemma_same_block(x, y, b);
    }
    assert forall|b: u64| y.contains_key(b) implies x.contains_key(b) by {
        lemma_same_block(y, x, b);
    }
    assert(x =~= y);
}

/// A block of one of two memories that hold the same bytes is a block of
/// the other.
proof fn lemma_same_block(x: Map<u64, Seq<u8>>, y: Map<u64, Seq<u8>>, b: u64)
    requires
        separated(x),
        separated(y),
        block_bytes(x) == block_bytes(y),
        x.contains_key(b),
    ensures
        y.contains_key(b),
        x[b] == y[b],
{
    lemma_block_is_run(x, b);
    lemma_block_byte(x, b, b as int);
    let c = choose|c: u64| in_block(y, c, b as int);
    lemma_block_is_run(y, c);
    if c < b {
        assert(block_bytes(y).contains_key(b - 1));
    }
    let xe = b + x[b].len();
    let ye = c + y[c].len();
    if ye < xe {
        assert(block_bytes(x).contains_key(ye));
    }
    if xe < ye {
        assert(block_bytes(y).contains_key(xe));
    }
    assert forall|i: int| 0 <= i < x[b].len() implies x[b][i] == y[b][i] by {
        lemma_block_byte(x, b, b + i);
        lemma_block_byte(y, b, b + i);
    }
    assert(x[b] =~= y[b]);
}

/// Storing `data` inside the block at `base`, which holds the whole range,
/// changes the bytes of that range and nothing else.
proof fn lemma_overwrite(
    m0: Map<u64, Seq<u8>>,
    base: u64,
    address: u64,
    data: Seq<u8>,
    blk: Seq<u8>,
)
    requires
        separated(m0),
        m0.contains_key(base),
        base <= address,
        address + data.len() <= base + m0[base].len(),
        blk.len() == m0[base].len(),
        forall|i: int|
            0 <= i < blk.len() ==> blk[i] == if address - base <= i < address - base + data.len() {
                data[i - (address - base)]
            } else {
                m0[base][i]
            },
    ensures
        separated(m0.insert(base, blk)),
        block_bytes(m0.insert(base, blk)) == written(block_bytes(m0), address as int, data),
{
    let m1 = m0.insert(base, blk);
    assert(separated(m1)) by {
        assert forall|a: u64, b: u64|
            #![trigger m1.contains_key(a), m1.contains_key(b)]
            m1.contains_key(a) && m1.contains_key(b) && a < b implies a + m1[a].len() < b by {
            assert(m0.contains_key(a) && m0.contains_key(b));
        }
    }
    let w = written(block_bytes(m0), address as int, data);
    assert forall|a: int| #[trigger] block_bytes(m1).contains_key(a) implies w.contains_key(a) by {
        let b = choose|b: u64| in_block(m1, b, a);
        assert(in_block(m0, b, a));
    }
    assert forall|a: int| #[trigger] w.contains_key(a) implies block_bytes(m1).contains_key(a)
        && block_bytes(m1)[a] == w[a] by {
        if address <= a < address + data.len() {
            lemma_block_byte(m1, base, a);
        } else {
            let b = choose|b: u64| in_block(m0, b, a);
            lemma_block_byte(m0, b, a);
            assert(in_block(m1, b, a));
            lemma_block_byte(m1, b, a);
        }
    }
    assert(block_bytes(m1) =~= w);
}

/// Where no block holds the whole range: removing the blocks that the range
/// swallows, and joining what is left of its neighbours to `data` in one
/// block, keeps the blocks separated and changes the bytes of the range and
/// nothing else.
proof fn lemma_merge(
    m0: Map<u64, Seq<u8>>,
    m3: Map<u64, Seq<u8>>,
    address: u64,
    data: Seq<u8>,
    prev: Option<u64>,
    next: Option<u64>,
    base: u64,
    blk: Seq<u8>,
)
    requires
        separated(m0),
        data.len() > 0,
        address + data.len() <= u64::MAX,
        forall|b: u64| #[trigger]
            m0.contains_key(b) ==> !(b <= address && address + data.len() <= b + m0[b].len()),
        match prev {
            Some(p) => m0.contains_key(p) && p <= address <= p + m0[p].len(),
            None => forall|b: u64| #[trigger]
                m0.contains_key(b) ==> !(b <= address <= b + m0[b].len()),
        },
        match next {
            Some(f) => m0.contains_key(f) && address < f <= address + data.len() < f
                + m0[f].len(),
            None => forall|b: u64| #[trigger]
                m0.contains_key(b) ==> !(address < b <= address + data.len() < b + m0[b].len()),
        },
        forall|b: u64| #[trigger]
            m3.contains_key(b) <==> m0.contains_key(b) && !(address < b && b + m0[b].len()
                <= address + data.len()) && Some(b) != prev && Some(b) != next,
        forall|b: u64| #[trigger] m3.contains_key(b) ==> m3[b] == m0[b],
        base == match prev {
            Some(p) => p,
            None => address,
        },
        blk == (match prev {
            Some(p) => m0[p].subrange(0, address - p),
            None => Seq::<u8>::empty(),
        }) + data + (match next {
            Some(f) => m0[f].subrange(address + data.len() - f, m0[f].len() as int),
            None => Seq::<u8>::empty(),
        }),
    ensures
        separated(m3.insert(base, blk)),
        block_bytes(m3.insert(base, blk)) == written(block_bytes(m0), address as int, data),
{
    let end = address + data.len();
    let m4 = m3.insert(base, blk);
    let stop = base + blk.len();
    assert(stop == match next {
        Some(f) => f + m0[f].len(),
        None => end,
    });
    assert(!m3.contains_key(base));
    assert forall|a: u64, b: u64|
        #![trigger m4.contains_key(a), m4.contains_key(b)]
        m4.contains_key(a) && m4.contains_key(b) && a < b implies a + m4[a].len() < b by {
        if a != base && b != base {
            assert(m0.contains_key(a) && m0.contains_key(b));
        } else if b == base {
            assert(m0.contains_key(a));
            if prev is Some {
                assert(m0.contains_key(base));
            }
        } else {
            assert(m0.contains_key(b));
            if b <= stop {
                if b <= address {
                    assert(m0.contains_key(base));
                } else if b <= end {
                    assert(in_block(m0, b, end as int));
                    assert(in_block(m0, next->0, end as int));
                    lemma_block_unique(m0, b, next->0, end as int);
                } else {
                    assert(m0.contains_key(next->0));
                }
            }
        }
    }
    assert(separated(m4));
    let w = written(block_bytes(m0), address as int, data);
    assert forall|a: int| #[trigger] block_bytes(m4).contains_key(a) implies w.contains_key(a) by {
        let b = choose|b: u64| in_block(m4, b, a);
        if b == base {
            if a < address {
                assert(in_block(m0, prev->0, a));
            } else if a >= end {
                assert(in_block(m0, next->0, a));
            }
        } else {
            assert(in_block(m0, b, a));
        }
    }
    assert forall|a: int| #[trigger] w.contains_key(a) implies block_bytes(m4).contains_key(a)
        && block_bytes(m4)[a] == w[a] by {
        if base <= a < stop {
            lemma_block_byte(m4, base, a);
            if a < address {
                lemma_block_byte(m0, prev->0, a);
            } else if a >= end {
                lemma_block_byte(m0, next->0, a);
            }
        } else {
            let b = choose|b: u64| in_block(m0, b, a);
            lemma_block_byte(m0, b, a);
            assert(m3.contains_key(b));
            assert(in_block(m4, b, a));
            lemma_block_byte(m4, b, a);
        }
    }
    assert(block_bytes(m4) =~= w);
}

/// The blocks that a map of byte vectors holds.
pub closed spec fn blocks_of(map: HashMap<u64, Vec<u8>>) -> Map<u64, Seq<u8>> {
    Map::new(|b: u64| map@.contains_key(b), |b: u64| map@[b]@)
}

/// The base addresses of all blocks, each once.
fn bases(map: &HashMap<u64, Vec<u8>>) -> (v: Vec<u64>)
    ensures
        forall|b: u64| blocks_of(*map).contains_key(b) <==> v@.contains(b),
        v@.len() == blocks_of(*map).dom().len(),
{
    let mut v: Vec<u64> = Vec::new();
    let ghost keys = spec_keys_iter(map).remaining();
    for k in it: map.keys()
        invariant
            it.seq() == keys,
            v@ == keys.unref().subrange(0, it.index()),
    {
        v.push(*k);
        assert(v@ == keys.unref().subrange(0, it.index() + 1));
    }
    proof {
        assert(v@ == keys.unref());
        assert(keys.unref().to_set() == map@.dom());
        assert forall|b: u64| blocks_of(*map).contains_key(b) <==> v@.contains(b) by {
            assert(blocks_of(*map).contains_key(b) <==> map@.dom().contains(b));
            assert(v@.to_set().contains(b) <==> v@.contains(b));
        }
        assert(blocks_of(*map).dom() =~= map@.dom());
    }
    v
}

/// The base of the block that holds every byte from `address` up to `end`.
fn find_covering(map: &HashMap<u64, Vec<u8>>, address: u64, end: u64) -> (r: Option<u64>)
    requires
        address < end,
        separated(blocks_of(*map)),
    ensures
        match r {
            Some(b) => blocks_of(*map).contains_key(b) && b <= address && end <= b + blocks_of(
                *map,
            )[b].len(),
            None => exists|a: int| address <= a < end && !block_bytes(blocks_of(*map)).contains_key(a),
        },
{
    let ghost blocks = blocks_of(*map);
    let all = bases(map);
    let mut i: usize = 0;
    while i < all.len()
        invariant
            0 <= i <= all.len(),
            address < end,
            blocks == blocks_of(*map),
            forall|b: u64| blocks.contains_key(b) <==> all@.contains(b),
            forall|j: int|
                0 <= j < i ==> !((#[trigger] all@[j]) <= address && end <= all@[j] + blocks[all@[j]].len()),
        decreases all.len() - i,
    {
        let b = all[i];
        assert(all@.contains(b));
        let block = map.get(&b).unwrap();
        assert(block@ == blocks[b]);
        if b <= address && end - b <= block.len() as u64 {
            return Some(b);
        }
        i += 1;
    }
    proof {
        if forall|a: int| address <= a < end ==> block_bytes(blocks).contains_key(a) {
            let b = lemma_run_in_block(blocks, address as int, end - address);
            assert(all@.contains(b));
            let j = choose|j: int| 0 <= j < all@.len() && all@[j] == b;
            assert(false);
        }
    }
    None
}

/// Removes every block that lies wholly inside the range and starts after
/// `address`.
fn remove_enclosed(map: &mut HashMap<u64, Vec<u8>>, address: u64, end: u64)
    requires
        address < end,
        separated(blocks_of(*old(map))),
    ensures
        forall|b: u64| #[trigger]
            blocks_of(*final(map)).contains_key(b) <==> blocks_of(*old(map)).contains_key(b) && !(
            address < b && b + blocks_of(*old(map))[b].len() <= end),
        forall|b: u64| #[trigger]
            blocks_of(*final(map)).contains_key(b) ==> blocks_of(*final(map))[b] == blocks_of(
                *old(map),
            )[b],
{
    let ghost before = blocks_of(*map);
    let all = bases(map);
    let mut i: usize = 0;
    while i < all.len()
        invariant
            0 <= i <= all.len(),
            address < end,
            separated(before),
            forall|b: u64| before.contains_key(b) <==> all@.contains(b),
            forall|b: u64| #[trigger]
                blocks_of(*map).contains_key(b) ==> before.contains_key(b) && blocks_of(*map)[b]
                    == before[b],
            forall|b: u64| #[trigger]
                before.contains_key(b) && !(address < b && b + before[b].len() <= end)
                    ==> blocks_of(*map).contains_key(b),
            forall|j: int|
                0 <= j < i && address < all@[j] && all@[j] + before[all@[j]].len() <= end
                    ==> !blocks_of(*map).contains_key(#[trigger] all@[j]),
        decreases all.len() - i,
    {
        let b = all[i];
        assert(all@.contains(b));
        if map.contains_key(&b) {
            let size = map.get(&b).unwrap().len();
            assert(blocks_of(*map).contains_key(b));
            assert(size == before[b].len());
            if address < b && b < end && size as u64 <= end - b {
                let ghost prior = blocks_of(*map);
                map.remove(&b);
                assert(blocks_of(*map) =~= prior.remove(b));
            }
        }
        i += 1;
    }
    proof {
        assert forall|b: u64| #[trigger] blocks_of(*map).contains_key(b) implies !(address < b && b
            + before[b].len() <= end) by {
            assert(all@.contains(b));
            let j = choose|j: int| 0 <= j < all@.len() && all@[j] == b;
            assert(blocks_of(*map).contains_key(all@[j]));
        }
    }
}

/// Removes the block that starts inside the range, after `address`, and
/// reaches past `end`, and hands back its base with the bytes it holds from
/// `end` on.
fn take_following(map: &mut HashMap<u64, Vec<u8>>, address: u64, end: u64) -> (r: Option<
    (u64, Vec<u8>),
>)
    requires
        address < end,
    ensures
        match r {
            Some((f, tail)) => {
                &&& blocks_of(*old(map)).contains_key(f)
                &&& address < f <= end < f + blocks_of(*old(map))[f].len()
                &&& tail@ == blocks_of(*old(map))[f].subrange(
                    end - f,
                    blocks_of(*old(map))[f].len() as int,
                )
                &&& blocks_of(*final(map)) == blocks_of(*old(map)).remove(f)
            },
            None => {
                &&& blocks_of(*final(map)) == blocks_of(*old(map))
                &&& forall|b: u64| #[trigger]
                    blocks_of(*old(map)).contains_key(b) ==> !(address < b <= end < b + blocks_of(
                        *old(map),
                    )[b].len())
            },
        },
{
    let ghost before = blocks_of(*map);
    let all = bases(map);
    let mut i: usize = 0;
    while i < all.len()
        invariant
            0 <= i <= all.len(),
            address < end,
            blocks_of(*map) == before,
            before == blocks_of(*old(map)),
            forall|b: u64| before.contains_key(b) <==> all@.contains(b),
            forall|j: int|
                0 <= j < i ==> !(address < (#[trigger] all@[j]) <= end < all@[j] + before[all@[j]].len()),
        decreases all.len() - i,
    {
        let b = all[i];
        assert(all@.contains(b));
        let size = map.get(&b).unwrap().len();
        assert(size == before[b].len());
        if address < b && b <= end && end - b < size as u64 {
            let mut block = map.remove(&b).unwrap();
            assert(block@ == before[b]);
            assert(blocks_of(*map) =~= before.remove(b));
            let tail = block.split_off((end - b) as usize);
            return Some((b, tail));
        }
        i += 1;
    }
    proof {
        assert forall|b: u64| #[trigger] before.contains_key(b) implies !(address < b <= end < b
            + before[b].len()) by {
            assert(all@.contains(b));
            let j = choose|j: int| 0 <= j < all@.len() && all@[j] == b;
        }
    }
    None
}

/// Removes the block that holds `address` or ends at it, and hands back its
/// base with the bytes it holds before `address`.
fn take_preceding(map: &mut HashMap<u64, Vec<u8>>, address: u64) -> (r: Option<(u64, Vec<u8>)>)
    ensures
        match r {
            Some((p, head)) => {
                &&& blocks_of(*old(map)).contains_key(p)
                &&& p <= address <= p + blocks_of(*old(map))[p].len()
                &&& head@ == blocks_of(*old(map))[p].subrange(0, address - p)
                &&& blocks_of(*final(map)) == blocks_of(*old(map)).remove(p)
            },
            None => {
                &&& blocks_of(*final(map)) == blocks_of(*old(map))
                &&& forall|b: u64| #[trigger]
                    blocks_of(*old(map)).contains_key(b) ==> !(b <= address <= b + blocks_of(
                        *old(map),
                    )[b].len())
            },
        },
{
    let ghost before = blocks_of(*map);
    let all = bases(map);
    let mut i: usize = 0;
    while i < all.len()
        invariant
            0 <= i <= all.len(),
            blocks_of(*map) == before,
            before == blocks_of(*old(map)),
            forall|b: u64| before.contains_key(b) <==> all@.contains(b),
            forall|j: int|
                0 <= j < i ==> !((#[trigger] all@[j]) <= address <= all@[j] + before[all@[j]].len()),
        decreases all.len() - i,
    {
        let b = all[i];
        assert(all@.contains(b));
        let size = map.get(&b).unwrap().len();
        assert(size == before[b].len());
        if b <= address && address - b <= size as u64 {
            let mut block = map.remove(&b).unwrap();
            assert(block@ == before[b]);
            assert(blocks_of(*map) =~= before.remove(b));
            block.truncate((address - b) as usize);
            return Some((b, block));
        }
        i += 1;
    }
    proof {
        assert forall|b: u64| #[trigger] before.contains_key(b) implies !(b <= address <= b
            + before[b].len()) by {
            assert(all@.contains(b));
            let j = choose|j: int| 0 <= j < all@.len() && all@[j] == b;
        }
    }
    None
}

/// The captured memory of a process: byte blocks by base address.
///
/// Its blocks are always [`separated`]: a write that would make two blocks
/// overlap or touch merges them instead.
pub struct Memory {
    memory: HashMap<u64, Vec<u8>>,
}

impl Memory {
    /// The stored blocks, by base address.
    pub closed spec fn view(&self) -> Map<u64, Seq<u8>> {
        blocks_of(self.memory)
    }

    /// Stored blocks neither overlap nor touch.
    #[verifier::type_invariant]
    pub open spec fn wf(&self) -> bool {
        separated(self@)
    }

    /// The stored bytes, by address.
    pub open spec fn bytes(&self) -> Map<int, u8> {
        block_bytes(self@)
    }

    /// What reading `len` bytes at `address` gives.
    pub open spec fn read_spec(&self, address: u64, len: usize) -> Result<Seq<u8>, Error> {
        read_at(self.bytes(), address, len)
    }

    /// A memory that holds `data` at `address` and nothing else.
    pub fn init(address: u64, data: Vec<u8>) -> (m: Self)
        ensures
            m.wf(),
            m@ == if data@.len() == 0 {
                Map::<u64, Seq<u8>>::empty()
            } else {
                Map::<u64, Seq<u8>>::empty().insert(address, data@)
            },
            m.bytes() == written(Map::<int, u8>::empty(), address as int, data@),
    {
        let mut memory: HashMap<u64, Vec<u8>> = HashMap::new();
        let ghost image = data@;
        if data.len() > 0 {
            memory.insert(address, data);
        }
        let m = Memory { memory };
        proof {
            if image.len() == 0 {
                assert(m@ =~= Map::<u64, Seq<u8>>::empty());
            } else {
                assert(m@ =~= Map::<u64, Seq<u8>>::empty().insert(address, image));
                assert forall|a: int| address <= a < address + image.len() implies m.bytes()[a]
                    == image[a - address] && #[trigger] m.bytes().contains_key(a) by {
                    lemma_block_byte(m@, address, a);
                }
            }
            assert(m.bytes() =~= written(Map::<int, u8>::empty(), address as int, image));
        }
        m
    }

    /// The base address and the length of every block, in no particular
    /// order.
    pub fn blocks(&self) -> (list: Vec<(u64, usize)>)
        ensures
            list@.len() == self@.dom().len(),
            forall|i: int|
                0 <= i < list@.len() ==> self@.contains_key((#[trigger] list@[i]).0) && list@[i].1
                    == self@[list@[i].0].len(),
            forall|b: u64|
                self@.contains_key(b) ==> exists|i: int|
                    0 <= i < list@.len() && (#[trigger] list@[i]).0 == b,
    {
        let all = bases(&self.memory);
        let mut list: Vec<(u64, usize)> = Vec::new();
        let mut i: usize = 0;
        while i < all.len()
            invariant
                0 <= i <= all.len(),
                list@.len() == i,
                forall|b: u64| self@.contains_key(b) <==> all@.contains(b),
                forall|j: int|
                    0 <= j < i ==> (#[trigger] list@[j]).0 == all@[j] && list@[j].1
                        == self@[all@[j]].len(),
            decreases all.len() - i,
        {
            let b = all[i];
            assert(all@.contains(b));
            let block = self.memory.get(&b).unwrap();
            assert(block@ == self@[b]);
            list.push((b, block.len()));
            i += 1;
        }
        proof {
            assert forall|b: u64| self@.contains_key(b) implies exists|i: int|
                0 <= i < list@.len() && (#[trigger] list@[i]).0 == b by {
                assert(all@.contains(b));
                let j = choose|j: int| 0 <= j < all@.len() && all@[j] == b;
                assert(list@[j].0 == b);
            }
            assert forall|j: int| 0 <= j < list@.len() implies self@.contains_key(
                (#[trigger] list@[j]).0,
            ) by {
                assert(all@.contains(all@[j]));
            }
        }
        list
    }

    /// Reads `len` bytes at `address`.
    ///
    /// Fails where the range leaves the valid window, and where a byte of it
    /// was never captured or written.
    pub fn read_bytes(&self, address: u64, len: usize) -> (r: Result<Vec<u8>, Error>)
        ensures
            self.wf(),
            match r {
                Ok(v) => self.read_spec(address, len) == Ok::<Seq<u8>, Error>(v@),
                Err(e) => self.read_spec(address, len) == Err::<Seq<u8>, Error>(e),
            },
    {
        proof {
            use_type_invariant(self);
        }
        if address < ASLR_START || address > ASLR_END || len as u64 > ASLR_END - address {
            return Err(Error::OutOfRange { address, len });
        }
        let mut out: Vec<u8> = Vec::new();
        if len == 0 {
            assert(out@ =~= bytes_at(self.bytes(), address as int, 0));
            return Ok(out);
        }
        let end = address + len as u64;
        match find_covering(&self.memory, address, end) {
            None => Err(Error::Uninitialized { address, len }),
            Some(b) => {
                let block = self.memory.get(&b).unwrap();
                assert(block@ == self@[b]);
                let size = block.len();
                let start = (address - b) as usize;
                let mut i: usize = 0;
                while i < len
                    invariant
                        0 <= i <= len,
                        start + len <= block@.len(),
                        block@.len() == size,
                        out@ == block@.subrange(start as int, start + i),
                    decreases len - i,
                {
                    out.push(block[start + i]);
                    assert(out@ == block@.subrange(start as int, start + i + 1));
                    i += 1;
                }
                proof {
                    assert forall|a: int| address <= a < address + len implies #[trigger] self.bytes().contains_key(
                    a) by {
                        lemma_block_byte(self@, b, a);
                    }
                    assert(covered(self.bytes(), address as int, len as int));
                    assert forall|i: int| 0 <= i < len implies out@[i] == bytes_at(
                        self.bytes(),
                        address as int,
                        len as int,
                    )[i] by {
                        lemma_block_byte(self@, b, address + i);
                    }
                    assert(out@ =~= bytes_at(self.bytes(), address as int, len as int));
                }
                Ok(out)
            },
        }
    }

    /// Stores `data` at `address`.
    ///
    /// Fails, and changes nothing, where the range leaves the valid window.
    /// Otherwise the bytes of the range become `data`, every other byte stays
    /// as it was, and blocks that the range joins become one.
    pub fn write_bytes(&mut self, address: u64, data: &[u8]) -> (r: Result<(), Error>)
        ensures
            final(self).wf(),
            match r {
                Ok(()) => write_at(old(self).bytes(), address, data@) == Ok::<Map<int, u8>, Error>(
                    final(self).bytes(),
                ),
                Err(e) => write_at(old(self).bytes(), address, data@) == Err::<Map<int, u8>, Error>(
                    e,
                ) && final(self)@ == old(self)@,
            },
    {
        proof {
            use_type_invariant(&*self);
        }
        let len = data.len();
        if address < ASLR_START || address > ASLR_END || len as u64 > ASLR_END - address {
            return Err(Error::OutOfRange { address, len });
        }
        if len == 0 {
            assert(self.bytes() =~= written(self.bytes(), address as int, data@));
            return Ok(());
        }
        let end = address + len as u64;
        let ghost m0 = self@;
        let mut map: HashMap<u64, Vec<u8>> = HashMap::new();
        assert(blocks_of(map) =~= Map::<u64, Seq<u8>>::empty());
        std::mem::swap(&mut self.memory, &mut map);
        assert(blocks_of(map) == m0);
        match find_covering(&map, address, end) {
            Some(b) => {
                let mut block = map.remove(&b).unwrap();
                assert(block@ == m0[b]);
                assert(blocks_of(map) =~= m0.remove(b));
                let size = block.len();
                let start = (address - b) as usize;
                let ghost prior = block@;
                let mut i: usize = 0;
                while i < len
                    invariant
                        0 <= i <= len,
                        len == data@.len(),
                        start + len <= prior.len(),
                        prior.len() == size,
                        block@.len() == prior.len(),
                        forall|j: int|
                            0 <= j < block@.len() ==> block@[j] == if start <= j < start + i {
                                data@[j - start]
                            } else {
                                prior[j]
                            },
                    decreases len - i,
                {
                    block.set(start + i, data[i]);
                    i += 1;
                }
                proof {
                    lemma_overwrite(m0, b, address, data@, block@);
                    assert(m0.remove(b).insert(b, block@) =~= m0.insert(b, block@));
                }
                let ghost image = block@;
                map.insert(b, block);
                assert(blocks_of(map) =~= m0.insert(b, image));
            },
            None => {
                remove_enclosed(&mut map, address, end);
                let ghost m1 = blocks_of(map);
                let following = take_following(&mut map, address, end);
                let ghost m2 = blocks_of(map);
                let preceding = take_preceding(&mut map, address);
                let ghost m3 = blocks_of(map);
                let ghost prev = match preceding {
                    Some((p, _)) => Some(p),
                    None => None,
                };
                let ghost next = match following {
                    Some((f, _)) => Some(f),
                    None => None,
                };
                let (base, mut block) = match preceding {
                    Some((p, head)) => (p, head),
                    None => (address, Vec::new()),
                };
                let mut i: usize = 0;
                let ghost head = block@;
                while i < len
                    invariant
                        0 <= i <= len,
                        len == data@.len(),
                        block@ == head + data@.subrange(0, i as int),
                    decreases len - i,
                {
                    block.push(data[i]);
                    i += 1;
                }
                assert(block@ == head + data@) by {
                    assert(data@.subrange(0, len as int) =~= data@);
                }
                match following {
                    Some((_, mut tail)) => {
                        block.append(&mut tail);
                    },
                    None => {
                        assert(block@ =~= block@ + Seq::<u8>::empty());
                    },
                }
                proof {
                    assert forall|b: u64| #[trigger] m0.contains_key(b) implies !(b <= address
                        && address + data@.len() <= b + m0[b].len()) by {
                        if b <= address && address + data@.len() <= b + m0[b].len() {
                            assert forall|a: int| address <= a < end implies block_bytes(
                                m0,
                            ).contains_key(a) by {
                                lemma_block_byte(m0, b, a);
                            }
                        }
                    }
                    match next {
                        Some(f) => {
                            assert(m1.contains_key(f));
                        },
                        None => {
                            assert forall|b: u64| #[trigger] m0.contains_key(b) implies !(address
                                < b <= end < b + m0[b].len()) by {
                                if address < b <= end < b + m0[b].len() {
                                    assert(m1.contains_key(b));
                                }
                            }
                        },
                    }
                    match prev {
                        Some(p) => {
                            assert(m2.contains_key(p));
                            assert(m1.contains_key(p));
                        },
                        None => {
                            assert forall|b: u64| #[trigger] m0.contains_key(b) implies !(b
                                <= address <= b + m0[b].len()) by {
                                if b <= address <= b + m0[b].len() {
                                    assert(m1.contains_key(b));
                                    assert(m2.contains_key(b));
                                }
                            }
                        },
                    }
                    assert forall|b: u64| #[trigger]
                        m3.contains_key(b) <==> m0.contains_key(b) && !(address < b && b
                            + m0[b].len() <= address + data@.len()) && Some(b) != prev && Some(b)
                            != next by {
                        assert(m3.contains_key(b) ==> m2.contains_key(b));
                        assert(m2.contains_key(b) ==> m1.contains_key(b));
                        assert(m1.contains_key(b) ==> m0.contains_key(b));
                    }
                    assert forall|b: u64| #[trigger] m3.contains_key(b) implies m3[b] == m0[b] by {
                        assert(m2.contains_key(b));
                        assert(m1.contains_key(b));
                    }
                    lemma_merge(m0, m3, address, data@, prev, next, base, block@);
                }
                let ghost image = block@;
                map.insert(base, block);
                assert(blocks_of(map) =~= m3.insert(base, image));
            },
        }
        std::mem::swap(&mut self.memory, &mut map);
        Ok(())
    }

    /// What reading a `T` at `address` gives.
    pub open spec fn read_value<T: Updatable>(&self, address: u64) -> Result<T::V, Error> {
        load::<T>(self.bytes(), address)
    }

    /// Reads the `T` that lies at `address`.
    ///
    /// Fails where the value's bytes leave the valid window, and where one of
    /// them was never captured or written. Memory stays as it is.
    pub fn read<T: Updatable>(&self, address: u64) -> (r: Result<Box<T>, Error>)
        ensures
            self.wf(),
            match r {
                Ok(v) => self.read_value::<T>(address) == Ok::<T::V, Error>(v@),
                Err(e) => self.read_value::<T>(address) == Err::<T::V, Error>(e),
            },
    {
        match self.read_bytes(address, T::size()) {
            Ok(bytes) => Ok(Box::new(T::from_bytes(bytes.as_slice()))),
            Err(e) => Err(e),
        }
    }

    /// Stores `object` at `address`.
    ///
    /// Fails, and changes nothing, where the value's bytes leave the valid
    /// window. Otherwise those bytes become the image of `object` and every
    /// other byte stays as it was.
    pub fn write<T: Updatable>(&mut self, address: u64, object: Box<T>) -> (r: Result<(), Error>)
        ensures
            final(self).wf(),
            match r {
                Ok(()) => store::<T>(old(self).bytes(), address, object@) == Ok::<
                    Map<int, u8>,
                    Error,
                >(final(self).bytes()),
                Err(e) => store::<T>(old(self).bytes(), address, object@) == Err::<
                    Map<int, u8>,
                    Error,
                >(e) && final(self)@ == old(self)@,
            },
    {
        let bytes = object.to_bytes();
        self.write_bytes(address, bytes.as_slice())
    }
}

/// A value that was written is the value that a read at the same address
/// gives.
pub proof fn lemma_read_after_write<T: Updatable>(bytes: Map<int, u8>, address: u64, value: T::V)
    requires
        in_window(address as int, T::layout_size() as int),
        T::representable(value),
    ensures
        store::<T>(bytes, address, value) matches Ok(after) && load::<T>(after, address) == Ok::<
            T::V,
            Error,
        >(value),
{
    T::lemma_layout(value);
    let after = store::<T>(bytes, address, value)->Ok_0;
    assert(bytes_at(after, address as int, T::layout_size() as int) =~= T::encode(value));
}

/// Whether an answer to the question, whether a pointer may be followed,
/// says no: whether its first letter is an `n`, small or capital.
pub open spec fn says_no(answer: Seq<u8>) -> bool {
    answer.len() > 0 && (answer[0] == 0x6e || answer[0] == 0x4e)
}

/// Whether `answer`, given to the question whether a pointer may be
/// followed, says no.
pub fn refuses(answer: &str) -> (no: bool)
    ensures
        no == says_no(answer.spec_bytes()),
{
    let bytes = answer.as_bytes();
    bytes.len() > 0 && (bytes[0] == 0x6e || bytes[0] == 0x4e)
}

/// An address in captured memory, tagged with the type of what lies there.
///
/// A pointer owns nothing. Address 0 is the null pointer.
pub struct Pointer<T = u8> {
    pub address: u64,
    pub phantom: PhantomData<T>,
}

impl<T> View for Pointer<T> {
    type V = u64;

    open spec fn view(&self) -> u64 {
        self.address
    }
}

impl<T> Clone for Pointer<T> {
    fn clone(&self) -> (r: Self)
        ensures
            r == *self,
    {
        *self
    }
}

impl<T> Copy for Pointer<T> {

}

impl<T> Pointer<T> {
    /// The pointer to `address`.
    pub open spec fn new_spec(address: u64) -> Self {
        Pointer { address, phantom: PhantomData }
    }

    /// The pointer to `address`.
    #[verifier::when_used_as_spec(new_spec)]
    pub fn new(address: u64) -> (p: Self)
        ensures
            p == Self::new_spec(address),
    {
        Self { address, phantom: PhantomData }
    }

    /// The null pointer.
    pub fn null() -> (p: Self)
        ensures
            p == Self::new_spec(0),
    {
        Self { address: 0, phantom: PhantomData }
    }

    /// Whether this is the null pointer.
    pub fn is_null(&self) -> (b: bool)
        ensures
            b == (self.address == 0),
    {
        self.address == 0
    }

    /// The value in native byte order of a pointer in little-endian order.
    ///
    /// Captured memory is little-endian and is decoded as such, so a pointer
    /// held by this library is in native order already.
    pub fn to_ne(&self) -> (p: Self)
        ensures
            p.address == self.address,
    {
        Self { address: self.address, phantom: PhantomData }
    }

    /// The value in little-endian order of a pointer in native byte order.
    ///
    /// Encoding writes little-endian bytes whatever the host, so the pointer
    /// to store is the pointer itself.
    pub fn to_le(&self) -> (p: Self)
        ensures
            p.address == self.address,
    {
        Self { address: self.address, phantom: PhantomData }
    }

    /// The same address, seen as the address of a `U`.
    pub fn cast<U>(&self) -> (p: Pointer<U>)
        ensures
            p == Pointer::<U>::new_spec(self.address),
    {
        Pointer { address: self.address, phantom: PhantomData }
    }
}

impl<T: Updatable> Pointer<T> {
    /// Reads the value that the pointer points to.
    pub fn read(&self, memory: &Memory) -> (r: Result<Box<T>, Error>)
        ensures
            memory.wf(),
            match r {
                Ok(v) => memory.read_value::<T>(self.address) == Ok::<T::V, Error>(v@),
                Err(e) => memory.read_value::<T>(self.address) == Err::<T::V, Error>(e),
            },
    {
        memory.read(self.address)
    }

    /// Stores `object` where the pointer points to.
    pub fn write(&self, memory: &mut Memory, object: Box<T>) -> (r: Result<(), Error>)
        ensures
            final(memory).wf(),
            match r {
                Ok(()) => store::<T>(old(memory).bytes(), self.address, object@) == Ok::<
                    Map<int, u8>,
                    Error,
                >(final(memory).bytes()),
                Err(e) => store::<T>(old(memory).bytes(), self.address, object@) == Err::<
                    Map<int, u8>,
                    Error,
                >(e) && final(memory)@ == old(memory)@,
            },
    {
        memory.write(self.address, object)
    }

    /// Whether the pointer may be followed: whether what it points to lies
    /// inside the valid window.
    pub fn validate(&self) -> (r: Result<(), Error>)
        ensures
            r == if in_window(self.address as int, T::layout_size() as int) {
                Ok::<(), Error>(())
            } else {
                Err::<(), Error>(Error::OutOfRange { address: self.address, len: T::layout_size() })
            },
    {
        let len = T::size();
        if self.address < ASLR_START || self.address > ASLR_END || len as u64 > ASLR_END
            - self.address {
            Err(Error::OutOfRange { address: self.address, len })
        } else {
            Ok(())
        }
    }
}

impl<T> Default for Pointer<T> {
    fn default() -> (p: Self)
        ensures
            p.address == 0,
    {
        Self { address: 0, phantom: PhantomData }
    }
}

impl<T> PartialEq for Pointer<T> {
    fn eq(&self, other: &Self) -> (r: bool) {
        self.address == other.address
    }
}

impl<T> PartialEqSpecImpl for Pointer<T> {
    open spec fn obeys_eq_spec() -> bool {
        true
    }

    open spec fn eq_spec(&self, other: &Self) -> bool {
        self.address == other.address
    }
}

impl<T> std::ops::Add<u64> for Pointer<T> {
    type Output = Self;

    fn add(self, rhs: u64) -> (r: Self) {
        Self { address: self.address.wrapping_add(rhs), phantom: PhantomData }
    }
}

impl<T> AddSpecImpl<u64> for Pointer<T> {
    open spec fn obeys_add_spec() -> bool {
        true
    }

    open spec fn add_req(self, rhs: u64) -> bool {
        true
    }

    open spec fn add_spec(self, rhs: u64) -> Self {
        Pointer { address: wrap(self.address + rhs), phantom: PhantomData }
    }
}

impl<T> std::ops::Sub<u64> for Pointer<T> {
    type Output = Self;

    fn sub(self, rhs: u64) -> (r: Self) {
        Self { address: self.address.wrapping_sub(rhs), phantom: PhantomData }
    }
}

impl<T> SubSpecImpl<u64> for Pointer<T> {
    open spec fn obeys_sub_spec() -> bool {
        true
    }

    open spec fn sub_req(self, rhs: u64) -> bool {
        true
    }

    open spec fn sub_spec(self, rhs: u64) -> Self {
        Pointer { address: wrap(self.address - rhs), phantom: PhantomData }
    }
}

impl<T> Updatable for Pointer<T> {
    open spec fn layout_size() -> usize {
        8
    }

    open spec fn decode(bytes: Seq<u8>) -> u64 {
        spec_u64_from_le_bytes(bytes)
    }

    open spec fn encode(value: u64) -> Seq<u8> {
        spec_u64_to_le_bytes(value)
    }

    open spec fn representable(value: u64) -> bool {
        true
    }

    proof fn lemma_layout(value: u64) {
        lemma_auto_spec_u64_to_from_le_bytes();
    }

    fn size() -> (n: usize) {
        8
    }

    fn from_bytes(bytes: &[u8]) -> (value: Self) {
        let value = Pointer { address: u64_from_le_bytes(bytes), phantom: PhantomData };
        assert(Self::representable(value@));
        value
    }

    fn to_bytes(&self) -> (bytes: Vec<u8>) {
        assert(Self::representable(self@));
        u64_to_le_bytes(self.address)
    }
}

} // verus!
