//! The game's slab: a fixed number of slots of one size, the free ones
//! chained through pointers that lie in the slots themselves.
use std::marker::PhantomData;
use vstd::bytes::*;
use vstd::prelude::*;

use crate::error::Error;
use crate::image::{copy_range, field, lemma_field_loaded, read_field};
use crate::script::{
    applied, lemma_applied_frame, lemma_applied_stored, lemma_run_ok, lemma_run_step, refreshed,
    run, stores_apart, stores_in_window, write_refresh,
};
use crate::mem::{
    ASLR_END, covered, in_window, lemma_bytes_at_split, lemma_load_outside, lemma_load_same,
    lemma_read_after_write, lemma_same_bytes_part, lemma_written_covered, load, Memory, Pointer,
    same_bytes, shifted, store, wrap, written,
};
use crate::traits::{Constructor, Updatable};

verus! {

/// What lies in a free slot: the address of the next free slot, or null.
pub struct FreeListNode {
    pub next_free: Pointer,
}

impl View for FreeListNode {
    type V = FreeListNode;

    open spec fn view(&self) -> FreeListNode {
        *self
    }
}

impl Clone for FreeListNode {
    fn clone(&self) -> (r: Self)
        ensures
            r == *self,
    {
        *self
    }
}

impl Copy for FreeListNode {

}

impl Default for FreeListNode {
    fn default() -> (node: Self)
        ensures
            node.next_free.address == 0,
    {
        FreeListNode { next_free: Pointer::null() }
    }
}

impl Updatable for FreeListNode {
    open spec fn layout_size() -> usize {
        8
    }

    open spec fn decode(bytes: Seq<u8>) -> FreeListNode {
        FreeListNode { next_free: Pointer::new_spec(spec_u64_from_le_bytes(bytes)) }
    }

    open spec fn encode(value: FreeListNode) -> Seq<u8> {
        spec_u64_to_le_bytes(value.next_free.address)
    }

    open spec fn representable(value: FreeListNode) -> bool {
        true
    }

    proof fn lemma_layout(value: FreeListNode) {
        lemma_auto_spec_u64_to_from_le_bytes();
    }

    fn size() -> (n: usize) {
        8
    }

    fn from_bytes(bytes: &[u8]) -> (value: Self) {
        let value = FreeListNode { next_free: Pointer::new(u64_from_le_bytes(bytes)) };
        assert(Self::representable(value@));
        assert(value@ == Self::decode(bytes@));
        value
    }

    fn to_bytes(&self) -> (bytes: Vec<u8>) {
        assert(Self::representable(self@));
        u64_to_le_bytes(self.next_free.address)
    }
}

/// The free list of a slab: its first free slot and the start of its slots.
pub struct FreeList {
    pub free: Pointer<FreeListNode>,
    pub work: Pointer,
}

impl View for FreeList {
    type V = FreeList;

    open spec fn view(&self) -> FreeList {
        *self
    }
}

impl Clone for FreeList {
    fn clone(&self) -> (r: Self)
        ensures
            r == *self,
    {
        *self
    }
}

impl Copy for FreeList {

}

impl Updatable for FreeList {
    open spec fn layout_size() -> usize {
        16
    }

    open spec fn decode(bytes: Seq<u8>) -> FreeList {
        FreeList {
            free: Pointer::new_spec(field::<Pointer>(bytes, 0)),
            work: Pointer::new_spec(field::<Pointer>(bytes, 8)),
        }
    }

    open spec fn encode(value: FreeList) -> Seq<u8> {
        spec_u64_to_le_bytes(value.free.address) + spec_u64_to_le_bytes(value.work.address)
    }

    open spec fn representable(value: FreeList) -> bool {
        true
    }

    proof fn lemma_layout(value: FreeList) {
        lemma_auto_spec_u64_to_from_le_bytes();
        let image = Self::encode(value);
        assert(image.subrange(0, 8) =~= spec_u64_to_le_bytes(value.free.address));
        assert(image.subrange(8, 16) =~= spec_u64_to_le_bytes(value.work.address));
    }

    fn size() -> (n: usize) {
        16
    }

    fn from_bytes(bytes: &[u8]) -> (value: Self) {
        let value = FreeList {
            free: read_field::<Pointer>(bytes, 0).cast(),
            work: read_field::<Pointer>(bytes, 8),
        };
        assert(Self::representable(value@));
        assert(value@ == Self::decode(bytes@));
        value
    }

    fn to_bytes(&self) -> (bytes: Vec<u8>) {
        let mut bytes = u64_to_le_bytes(self.free.address);
        let mut work = u64_to_le_bytes(self.work.address);
        bytes.append(&mut work);
        proof {
            lemma_auto_spec_u64_to_from_le_bytes();
            assert(Self::representable(self@));
            assert(bytes@ == Self::encode(self@));
        }
        bytes
    }
}

/// Offset of the number of slots in use.
pub const SLAB_PTR_NUM: usize = 0;

/// Offset of the number of slots.
pub const SLAB_PTR_NUM_MAX: usize = 4;

/// Offset of the pointer to the table of slots in use.
pub const SLAB_PTRS: usize = 8;

/// Offset of the pointer to the first free slot.
pub const SLAB_FREE: usize = 16;

/// Offset of the pointer to the slots.
pub const SLAB_WORK_PTR: usize = 24;

/// Offset of the slots.
pub const SLAB_WORK: usize = 32;

/// The number of bytes of a slot that can hold a `T` or a pointer to the
/// next free slot: the larger of the two sizes, in whole words.
pub open spec fn slot_size<T: Updatable>() -> int {
    if T::layout_size() < 8 {
        8
    } else {
        (T::layout_size() + 7) / 8 * 8
    }
}

/// A slab of `N` slots for values of type `T`, as it lies in memory: the
/// number of slots in use, the number of slots, the pointer to the table of
/// slots in use, the free list, the slots and that table. The view is the
/// whole byte image.
pub struct FixedObjArray<T: Updatable, const N: usize> {
    image: Vec<u8>,
    phantom: PhantomData<T>,
}

impl<T: Updatable, const N: usize> View for FixedObjArray<T, N> {
    type V = Seq<u8>;

    closed spec fn view(&self) -> Seq<u8> {
        self.image@
    }
}

impl<T: Updatable, const N: usize> Clone for FixedObjArray<T, N> {
    fn clone(&self) -> (r: Self)
        ensures
            r@ == self@,
    {
        proof {
            use_type_invariant(self);
        }
        FixedObjArray {
            image: copy_range(self.image.as_slice(), 0, self.image.len()),
            phantom: PhantomData,
        }
    }
}

impl<T: Updatable, const N: usize> Updatable for FixedObjArray<T, N> {
    open spec fn layout_size() -> usize {
        if Self::total_size() <= usize::MAX {
            Self::total_size() as usize
        } else {
            usize::MAX
        }
    }

    open spec fn decode(bytes: Seq<u8>) -> Seq<u8> {
        bytes
    }

    open spec fn encode(value: Seq<u8>) -> Seq<u8> {
        value
    }

    open spec fn representable(value: Seq<u8>) -> bool {
        value.len() == Self::layout_size()
    }

    proof fn lemma_layout(value: Seq<u8>) {
    }

    fn size() -> (n: usize) {
        match Self::fitting_size() {
            Some((total, _)) => total,
            None => usize::MAX,
        }
    }

    fn from_bytes(bytes: &[u8]) -> (value: Self) {
        let value = FixedObjArray {
            image: copy_range(bytes, 0, bytes.len()),
            phantom: PhantomData,
        };
        assert(bytes@.subrange(0, bytes@.len() as int) =~= bytes@);
        assert(Self::representable(value@));
        assert(value@ == Self::decode(bytes@));
        value
    }

    fn to_bytes(&self) -> (bytes: Vec<u8>) {
        proof {
            use_type_invariant(self);
        }
        let bytes = copy_range(self.image.as_slice(), 0, self.image.len());
        assert(self@.subrange(0, self@.len() as int) =~= self@);
        assert(Self::representable(self@));
        assert(bytes@ == Self::encode(self@));
        bytes
    }
}

impl<T: Updatable, const N: usize> FixedObjArray<T, N> {
    #[verifier::type_invariant]
    spec fn inv(self) -> bool {
        self.image@.len() == Self::layout_size()
    }

    /// The number of bytes of the header, the slots and the table together.
    pub open spec fn total_size() -> int {
        SLAB_WORK + N * (slot_size::<T>() + 8)
    }

    /// The number of slots, as the header states it.
    pub open spec fn count_max() -> i32 {
        if N <= i32::MAX {
            N as i32
        } else {
            i32::MAX
        }
    }

    /// The address of slot `i` of the slab at `this`.
    pub open spec fn slot_at(this: u64, i: int) -> u64 {
        wrap(this + SLAB_WORK + i * slot_size::<T>())
    }

    /// The number of slots in use that an image holds.
    pub open spec fn ptr_num_of(image: Seq<u8>) -> i32 {
        field::<i32>(image, SLAB_PTR_NUM as int)
    }

    /// The number of slots that an image holds.
    pub open spec fn ptr_num_max_of(image: Seq<u8>) -> i32 {
        field::<i32>(image, SLAB_PTR_NUM_MAX as int)
    }

    /// The pointer to the table of slots in use that an image holds.
    pub open spec fn ptrs_of(image: Seq<u8>) -> u64 {
        field::<Pointer>(image, SLAB_PTRS as int)
    }

    /// The pointer to the first free slot that an image holds.
    pub open spec fn free_of(image: Seq<u8>) -> u64 {
        field::<Pointer>(image, SLAB_FREE as int)
    }

    /// The pointer to the slots that an image holds.
    pub open spec fn work_of(image: Seq<u8>) -> u64 {
        field::<Pointer>(image, SLAB_WORK_PTR as int)
    }

    /// The number of slots in use.
    pub fn ptr_num(&self) -> (n: i32)
        ensures
            n == Self::ptr_num_of(self@),
            self@.len() == Self::layout_size(),
    {
        proof {
            use_type_invariant(self);
            Self::lemma_size();
        }
        read_field::<i32>(self.image.as_slice(), SLAB_PTR_NUM)
    }

    /// The number of slots.
    pub fn ptr_num_max(&self) -> (n: i32)
        ensures
            n == Self::ptr_num_max_of(self@),
    {
        proof {
            use_type_invariant(self);
            Self::lemma_size();
        }
        read_field::<i32>(self.image.as_slice(), SLAB_PTR_NUM_MAX)
    }

    /// The pointer to the table of slots in use.
    pub fn ptrs(&self) -> (p: Pointer<Pointer<T>>)
        ensures
            p.address == Self::ptrs_of(self@),
    {
        proof {
            use_type_invariant(self);
            Self::lemma_size();
        }
        read_field::<Pointer>(self.image.as_slice(), SLAB_PTRS).cast()
    }

    /// The pointer to the first free slot.
    pub fn free(&self) -> (p: Pointer<FreeListNode>)
        ensures
            p.address == Self::free_of(self@),
    {
        proof {
            use_type_invariant(self);
            Self::lemma_size();
        }
        read_field::<Pointer>(self.image.as_slice(), SLAB_FREE).cast()
    }

    /// The pointer to the slots.
    pub fn work(&self) -> (p: Pointer)
        ensures
            p.address == Self::work_of(self@),
    {
        proof {
            use_type_invariant(self);
            Self::lemma_size();
        }
        read_field::<Pointer>(self.image.as_slice(), SLAB_WORK_PTR)
    }

    /// The size of the slab and, where it has slots, of one slot; nothing
    /// where the size of the slab is no size that memory can have.
    pub fn fitting_size() -> (r: Option<(usize, usize)>)
        ensures
            match r {
                Some((total, slot)) => total == Self::total_size() && (N > 0 ==> slot
                    == slot_size::<T>()),
                None => Self::total_size() > usize::MAX,
            },
    {
        let size = T::size();
        if N == 0 {
            assert(N * (slot_size::<T>() + 8) == 0) by (nonlinear_arith)
                requires
                    N == 0,
            ;
            return Some((SLAB_WORK, 8));
        }
        let ghost per = slot_size::<T>() + 8;
        assert(Self::total_size() >= 32 + per) by (nonlinear_arith)
            requires
                Self::total_size() == 32 + N * per,
                N >= 1,
                per >= 0,
        ;
        let rounded = if size < 8 {
            8
        } else {
            match size.checked_add(7) {
                Some(sum) => sum / 8 * 8,
                None => {
                    return None;
                },
            }
        };
        let each = match rounded.checked_add(8) {
            Some(each) => each,
            None => {
                return None;
            },
        };
        let all = match N.checked_mul(each) {
            Some(all) => all,
            None => {
                return None;
            },
        };
        match all.checked_add(SLAB_WORK) {
            Some(total) => Some((total, rounded)),
            None => None,
        }
    }

    /// A slab is no smaller than its header.
    pub proof fn lemma_size()
        ensures
            Self::layout_size() >= SLAB_WORK,
    {
        assert(N * (slot_size::<T>() + 8) >= 0) by (nonlinear_arith)
            requires
                slot_size::<T>() + 8 >= 0,
        ;
    }
}

impl<T: Updatable, const N: usize> FixedObjArray<T, N> {
    /// The stores that build the slab at `this`, in their order: the free
    /// list starts at the first slot, each slot points to the next and the
    /// last to none, and the header states where the slots and the table
    /// lie, that no slot is in use, and how many there are.
    pub open spec fn ctor_script(this: u64) -> Seq<(u64, Seq<u8>)> {
        seq![
            (
                (this + SLAB_FREE) as u64,
                Pointer::<u8>::encode(
                    if N > 0 {
                        Self::slot_at(this, 0)
                    } else {
                        0
                    },
                ),
            ),
        ] + Seq::new(
            N as nat,
            |i: int|
                (
                    Self::slot_at(this, i),
                    Pointer::<u8>::encode(
                        if i + 1 < N {
                            Self::slot_at(this, i + 1)
                        } else {
                            0
                        },
                    ),
                ),
        ) + seq![
            ((this + SLAB_WORK_PTR) as u64, Pointer::<u8>::encode((this + SLAB_WORK) as u64)),
            ((this + SLAB_PTRS) as u64, Pointer::<u8>::encode(Self::slot_at(this, N as int))),
            ((this + SLAB_PTR_NUM) as u64, i32::encode(0)),
            ((this + SLAB_PTR_NUM_MAX) as u64, i32::encode(Self::count_max())),
        ]
    }

    /// What `ctor` gives: the bytes afterwards and the slab as it then lies
    /// at `this`.
    #[verifier::opaque]
    pub open spec fn ctor_spec(image: Seq<u8>, bytes: Map<int, u8>, this: u64) -> Result<
        (Map<int, u8>, Seq<u8>),
        Error,
    > {
        if Self::total_size() > usize::MAX || !in_window(this as int, Self::layout_size() as int) {
            Err(Error::OutOfRange { address: this, len: Self::layout_size() })
        } else {
            run::<FixedObjArray<T, N>>(bytes, image, this, Self::ctor_script(this))
        }
    }

    /// What `acquire` gives: the bytes afterwards, the slab as it then lies
    /// at `this`, and the slot that was taken.
    pub open spec fn acquire_spec(image: Seq<u8>, bytes: Map<int, u8>, this: u64) -> Result<
        (Map<int, u8>, Seq<u8>, u64),
        Error,
    > {
        let slot = Self::free_of(image);
        if slot == 0 {
            Err(Error::Full)
        } else {
            match load::<FreeListNode>(bytes, slot) {
                Err(e) => Err(e),
                Ok(node) => match refreshed::<Pointer, FixedObjArray<T, N>>(
                    bytes,
                    wrap(this + SLAB_FREE),
                    node.next_free.address,
                    this,
                ) {
                    Err(e) => Err(e),
                    Ok((b1, s1)) => match refreshed::<i32, FixedObjArray<T, N>>(
                        b1,
                        wrap(this + SLAB_PTR_NUM),
                        if Self::ptr_num_of(s1) == i32::MAX {
                            i32::MIN
                        } else {
                            (Self::ptr_num_of(s1) + 1) as i32
                        },
                        this,
                    ) {
                        Err(e) => Err(e),
                        Ok((b2, s2)) => Ok((b2, s2, slot)),
                    },
                },
            }
        }
    }

    /// What `release` gives for the slot at `slot`: the bytes afterwards and
    /// the slab as it then lies at `this`.
    pub open spec fn release_spec(image: Seq<u8>, bytes: Map<int, u8>, this: u64, slot: u64) -> Result<
        (Map<int, u8>, Seq<u8>),
        Error,
    > {
        match refreshed::<Pointer, FixedObjArray<T, N>>(bytes, slot, Self::free_of(image), this) {
            Err(e) => Err(e),
            Ok((b1, _)) => match refreshed::<Pointer, FixedObjArray<T, N>>(
                b1,
                wrap(this + SLAB_FREE),
                slot,
                this,
            ) {
                Err(e) => Err(e),
                Ok((b2, s2)) => refreshed::<i32, FixedObjArray<T, N>>(
                    b2,
                    wrap(this + SLAB_PTR_NUM),
                    if Self::ptr_num_of(s2) == i32::MIN {
                        i32::MAX
                    } else {
                        (Self::ptr_num_of(s2) - 1) as i32
                    },
                    this,
                ),
            },
        }
    }

    /// Takes the first free slot: the free list then starts at the slot
    /// after it, and one more slot is in use.
    ///
    /// Fails with [`Error::Full`] where no slot is free.
    pub fn acquire(&mut self, memory: &mut Memory, this: Pointer<Self>) -> (r: Result<
        Pointer<T>,
        Error,
    >)
        ensures
            final(memory).wf(),
            match r {
                Ok(slot) => Self::acquire_spec(old(self)@, old(memory).bytes(), this.address)
                    == Ok::<(Map<int, u8>, Seq<u8>, u64), Error>(
                    (final(memory).bytes(), final(self)@, slot.address),
                ),
                Err(e) => Self::acquire_spec(old(self)@, old(memory).bytes(), this.address) == Err::<
                    (Map<int, u8>, Seq<u8>, u64),
                    Error,
                >(e),
            },
    {
        let slot = self.free();
        if slot.is_null() {
            proof {
                use_type_invariant(&*memory);
            }
            return Err(Error::Full);
        }
        let node = match slot.read(memory) {
            Err(e) => {
                return Err(e);
            },
            Ok(node) => node,
        };
        if let Err(e) = write_refresh(
            memory,
            shifted(this.address, SLAB_FREE as i64),
            node.next_free,
            self,
            &this,
        ) {
            return Err(e);
        }
        let count = self.ptr_num().wrapping_add(1);
        if let Err(e) = write_refresh(
            memory,
            shifted(this.address, SLAB_PTR_NUM as i64),
            count,
            self,
            &this,
        ) {
            return Err(e);
        }
        Ok(slot.cast())
    }

    /// Gives the slot at `slot` back: it becomes the first free slot, and
    /// one slot fewer is in use. Whether the slot was in use is not asked.
    pub fn release(&mut self, memory: &mut Memory, this: Pointer<Self>, slot: Pointer<T>) -> (r:
        Result<(), Error>)
        ensures
            final(memory).wf(),
            match r {
                Ok(()) => Self::release_spec(
                    old(self)@,
                    old(memory).bytes(),
                    this.address,
                    slot.address,
                ) == Ok::<(Map<int, u8>, Seq<u8>), Error>((final(memory).bytes(), final(self)@)),
                Err(e) => Self::release_spec(
                    old(self)@,
                    old(memory).bytes(),
                    this.address,
                    slot.address,
                ) == Err::<(Map<int, u8>, Seq<u8>), Error>(e),
            },
    {
        let head: Pointer = self.free().cast();
        if let Err(e) = write_refresh(memory, slot.address, head, self, &this) {
            return Err(e);
        }
        let taken: Pointer = slot.cast();
        if let Err(e) = write_refresh(
            memory,
            shifted(this.address, SLAB_FREE as i64),
            taken,
            self,
            &this,
        ) {
            return Err(e);
        }
        let count = self.ptr_num().wrapping_sub(1);
        write_refresh(memory, shifted(this.address, SLAB_PTR_NUM as i64), count, self, &this)
    }
}

impl<T: Updatable, const N: usize> Constructor for FixedObjArray<T, N> {
    /// Builds the slab at `this` with every slot free.
    ///
    /// Fails where the slab would not lie inside the valid window.
    fn ctor(&mut self, memory: &mut Memory, this: Pointer<Self>) -> (r: Result<(), Error>)
        ensures
            match r {
                Ok(()) => Self::ctor_spec(old(self)@, old(memory).bytes(), this.address) == Ok::<
                    (Map<int, u8>, Seq<u8>),
                    Error,
                >((final(memory).bytes(), final(self)@)),
                Err(e) => Self::ctor_spec(old(self)@, old(memory).bytes(), this.address) == Err::<
                    (Map<int, u8>, Seq<u8>),
                    Error,
                >(e),
            },
    {
        reveal(FixedObjArray::ctor_spec);
        let (total, slot) = match Self::fitting_size() {
            None => {
                proof {
                    use_type_invariant(&*memory);
                }
                return Err(Error::OutOfRange { address: this.address, len: usize::MAX });
            },
            Some(sizes) => sizes,
        };
        if let Err(e) = this.validate() {
            proof {
                use_type_invariant(&*memory);
            }
            return Err(e);
        }
        let ghost script = Self::ctor_script(this.address);
        let ghost len = script.len() as int;
        let ghost b0 = memory.bytes();
        let ghost o0 = self@;
        let ghost unit = slot_size::<T>();
        assert(N * (unit + 8) >= N * unit >= 0) by (nonlinear_arith)
            requires
                unit >= 0,
        ;
        assert(len == N + 5);
        assert(script.subrange(0, len) =~= script);
        let work: u64 = this.address + SLAB_WORK as u64;
        let first: Pointer = if N > 0 {
            Pointer::new(work)
        } else {
            Pointer::null()
        };
        proof {
            assert(0 * unit == 0) by (nonlinear_arith);
            lemma_run_step::<Pointer, Self>(
                b0,
                o0,
                this.address,
                script,
                0,
                (this.address + SLAB_FREE) as u64,
                first@,
            );
        }
        if let Err(e) = write_refresh(memory, this.address + SLAB_FREE as u64, first, self, &this) {
            return Err(e);
        }
        let mut i: usize = 0;
        let mut at: u64 = work;
        while i < N
            invariant
                0 <= i <= N,
                memory.wf(),
                unit == slot_size::<T>(),
                N > 0 ==> slot == unit,
                unit >= 8,
                script == Self::ctor_script(this.address),
                len == N + 5,
                work == this.address + SLAB_WORK,
                at == work + i * unit,
                work + N * unit <= ASLR_END,
                Self::ctor_spec(old(self)@, old(memory).bytes(), this.address) == run::<Self>(
                    b0,
                    o0,
                    this.address,
                    script,
                ),
                run::<Self>(b0, o0, this.address, script) == run::<Self>(
                    memory.bytes(),
                    self@,
                    this.address,
                    script.subrange(1 + i, len),
                ),
            decreases N - i,
        {
            assert((i + 1) * unit == i * unit + unit && (i + 1) * unit <= N * unit)
                by (nonlinear_arith)
                requires
                    i + 1 <= N,
                    unit >= 0,
            ;
            let next: Pointer = if i + 1 < N {
                Pointer::new(at + slot as u64)
            } else {
                Pointer::null()
            };
            proof {
                lemma_run_step::<Pointer, Self>(
                    memory.bytes(),
                    self@,
                    this.address,
                    script,
                    1 + i,
                    at,
                    next@,
                );
            }
            if let Err(e) = write_refresh(memory, at, next, self, &this) {
                return Err(e);
            }
            at = at + slot as u64;
            i += 1;
        }
        let start: Pointer = Pointer::new(work);
        proof {
            lemma_run_step::<Pointer, Self>(
                memory.bytes(),
                self@,
                this.address,
                script,
                1 + N,
                (this.address + SLAB_WORK_PTR) as u64,
                start@,
            );
        }
        if let Err(e) = write_refresh(
            memory,
            this.address + SLAB_WORK_PTR as u64,
            start,
            self,
            &this,
        ) {
            return Err(e);
        }
        let table: Pointer = Pointer::new(at);
        proof {
            lemma_run_step::<Pointer, Self>(
                memory.bytes(),
                self@,
                this.address,
                script,
                2 + N,
                (this.address + SLAB_PTRS) as u64,
                table@,
            );
        }
        if let Err(e) = write_refresh(memory, this.address + SLAB_PTRS as u64, table, self, &this) {
            return Err(e);
        }
        proof {
            lemma_run_step::<i32, Self>(
                memory.bytes(),
                self@,
                this.address,
                script,
                3 + N,
                (this.address + SLAB_PTR_NUM) as u64,
                0i32,
            );
        }
        if let Err(e) = write_refresh(
            memory,
            this.address + SLAB_PTR_NUM as u64,
            0i32,
            self,
            &this,
        ) {
            return Err(e);
        }
        let count_max: i32 = if N <= 0x7fff_ffff {
            N as i32
        } else {
            0x7fff_ffff
        };
        proof {
            lemma_run_step::<i32, Self>(
                memory.bytes(),
                self@,
                this.address,
                script,
                4 + N,
                (this.address + SLAB_PTR_NUM_MAX) as u64,
                count_max,
            );
            assert(script.subrange(5 + N, len) =~= Seq::<(u64, Seq<u8>)>::empty());
        }
        write_refresh(memory, this.address + SLAB_PTR_NUM_MAX as u64, count_max, self, &this)
    }
}

impl<T: Updatable, const N: usize> FixedObjArray<T, N> {
    /// The address of the free slot at position `k` of a free list that
    /// holds the slots of indices `free`; null past its end.
    pub open spec fn chain(this: u64, free: Seq<int>, k: int) -> u64 {
        if 0 <= k < free.len() {
            Self::slot_at(this, free[k])
        } else {
            0
        }
    }

    /// The slot at position `k` of the free list is a slot of the slab and
    /// holds the address of the free slot after it.
    pub open spec fn free_slot(bytes: Map<int, u8>, this: u64, free: Seq<int>, k: int) -> bool {
        &&& 0 <= free[k] < N
        &&& load::<FreeListNode>(bytes, Self::slot_at(this, free[k])) == Ok::<FreeListNode, Error>(
            FreeListNode { next_free: Pointer::new_spec(Self::chain(this, free, k + 1)) },
        )
    }

    /// The slab at `this` is stored, states that `used` slots are in use,
    /// and its free list holds exactly the slots of indices `free`, each
    /// once: the slots in use and the free slots are all the slots.
    pub open spec fn is_slab(bytes: Map<int, u8>, this: u64, free: Seq<int>, used: int) -> bool {
        &&& N <= i32::MAX
        &&& Self::total_size() <= usize::MAX
        &&& in_window(this as int, Self::total_size())
        &&& covered(bytes, this as int, Self::total_size())
        &&& 0 <= used
        &&& used + free.len() == N
        &&& load::<i32>(bytes, (this + SLAB_PTR_NUM) as u64) == Ok::<i32, Error>(used as i32)
        &&& load::<Pointer>(bytes, (this + SLAB_FREE) as u64) == Ok::<u64, Error>(
            Self::chain(this, free, 0),
        )
        &&& free.no_duplicates()
        &&& forall|k: int| 0 <= k < free.len() ==> #[trigger] Self::free_slot(bytes, this, free, k)
    }

    /// Where the slots of a slab lie: after the header, inside the slab, one
    /// after the other.
    pub proof fn lemma_slot_place(this: u64, i: int, j: int)
        requires
            in_window(this as int, Self::total_size()),
            0 <= i < N,
            0 <= j < N,
        ensures
            Self::slot_at(this, i) == this + SLAB_WORK + i * slot_size::<T>(),
            this + SLAB_WORK <= Self::slot_at(this, i),
            Self::slot_at(this, i) + slot_size::<T>() <= this + Self::total_size(),
            in_window(Self::slot_at(this, i) as int, 8),
            i < j ==> Self::slot_at(this, i) + slot_size::<T>() <= Self::slot_at(this, j),
            slot_size::<T>() >= 8,
    {
        let unit = slot_size::<T>();
        assert(0 <= i * unit && i * unit + unit <= N * unit && N * unit <= N * (unit + 8) && 0 <= j
            * unit && j * unit + unit <= N * unit) by (nonlinear_arith)
            requires
                0 <= i < N,
                0 <= j < N,
                unit >= 8,
        ;
        if i < j {
            assert(i * unit + unit <= j * unit) by (nonlinear_arith)
                requires
                    0 <= i < j,
                    unit >= 8,
            ;
        }
    }

    /// The header fields of a slab that lies in memory are what lies in
    /// memory at their places.
    pub proof fn lemma_slab_fields(bytes: Map<int, u8>, this: u64)
        requires
            Self::total_size() <= usize::MAX,
            in_window(this as int, Self::total_size()),
            covered(bytes, this as int, Self::total_size()),
        ensures
            load::<FixedObjArray<T, N>>(bytes, this) matches Ok(image) && {
                &&& load::<i32>(bytes, (this + SLAB_PTR_NUM) as u64) == Ok::<i32, Error>(
                    Self::ptr_num_of(image),
                )
                &&& load::<Pointer>(bytes, (this + SLAB_FREE) as u64) == Ok::<u64, Error>(
                    Self::free_of(image),
                )
                &&& load::<Pointer>(bytes, (this + SLAB_PTRS) as u64) == Ok::<u64, Error>(
                    Self::ptrs_of(image),
                )
            },
    {
        Self::lemma_size();
        lemma_field_loaded::<i32>(bytes, this, Self::layout_size(), SLAB_PTR_NUM as int);
        lemma_field_loaded::<Pointer>(bytes, this, Self::layout_size(), SLAB_FREE as int);
        lemma_field_loaded::<Pointer>(bytes, this, Self::layout_size(), SLAB_PTRS as int);
    }

    /// Taking a slot from a well-formed slab with a free slot, through an
    /// image that holds the slab's free pointer, gives the first slot of the
    /// free list, leaves a well-formed slab with that slot in use, and
    /// changes only the header's free pointer and count.
    #[verifier::rlimit(50)]
    pub proof fn lemma_acquire(image: Seq<u8>, bytes: Map<int, u8>, this: u64, free: Seq<int>, used: int)
        requires
            Self::is_slab(bytes, this, free, used),
            Self::free_of(image) == Self::chain(this, free, 0),
            free.len() > 0,
        ensures
            Self::acquire_spec(image, bytes, this) matches Ok((after, fresh, slot)) && {
                &&& slot == Self::slot_at(this, free[0])
                &&& Self::is_slab(after, this, free.drop_first(), used + 1)
                &&& load::<FixedObjArray<T, N>>(after, this) == Ok::<Seq<u8>, Error>(fresh)
                &&& forall|a: int| after.contains_key(a) == bytes.contains_key(a)
                &&& forall|a: int|
                    bytes.contains_key(a) && !(this <= a < this + 4) && !(this + 16 <= a < this + 24)
                        ==> after[a] == bytes[a]
            },
    {
        let rest = free.drop_first();
        let slot = Self::slot_at(this, free[0]);
        let next = Self::chain(this, free, 1);
        let total = Self::total_size();
        Self::lemma_size();
        Self::lemma_slab_fields(bytes, this);
        assert(Self::free_slot(bytes, this, free, 0));
        Self::lemma_slot_place(this, free[0], free[0]);
        lemma_auto_spec_u64_to_from_le_bytes();
        let d1 = Pointer::<u8>::encode(next);
        let free_at = (this + SLAB_FREE) as u64;
        let num_at = (this + SLAB_PTR_NUM) as u64;
        let b1 = written(bytes, free_at as int, d1);
        lemma_written_covered(bytes, free_at as int, d1, this as int, total);
        Self::lemma_slab_fields(b1, this);
        lemma_load_outside::<i32>(bytes, free_at as int, d1, num_at);
        lemma_read_after_write::<Pointer>(bytes, free_at, next);
        let count = (used + 1) as i32;
        let d2 = i32::encode(count);
        i32::lemma_layout(count);
        let b2 = written(b1, num_at as int, d2);
        lemma_written_covered(b1, num_at as int, d2, this as int, total);
        Self::lemma_slab_fields(b2, this);
        lemma_read_after_write::<i32>(b1, num_at, count);
        lemma_load_outside::<Pointer>(b1, num_at as int, d2, free_at);
        assert(Self::acquire_spec(image, bytes, this) == Ok::<(Map<int, u8>, Seq<u8>, u64), Error>(
            (b2, load::<FixedObjArray<T, N>>(b2, this)->Ok_0, slot),
        ));
        lemma_bytes_at_split(bytes, this as int, total, 16);
        lemma_bytes_at_split(bytes, this + 16, total - 16, 8);
        lemma_bytes_at_split(bytes, this as int, 16, 4);
        assert forall|a: int| b2.contains_key(a) == bytes.contains_key(a) by {}
        assert forall|k: int| 0 <= k < rest.len() implies #[trigger] Self::free_slot(
            b2,
            this,
            rest,
            k,
        ) by {
            assert(Self::free_slot(bytes, this, free, k + 1));
            assert(rest[k] == free[k + 1]);
            Self::lemma_slot_place(this, free[k + 1], free[k + 1]);
            let at = Self::slot_at(this, free[k + 1]);
            lemma_load_outside::<FreeListNode>(bytes, free_at as int, d1, at);
            lemma_load_outside::<FreeListNode>(b1, num_at as int, d2, at);
            assert(Self::chain(this, rest, k + 1) == Self::chain(this, free, k + 2));
        }
        assert(rest.no_duplicates());
        assert(Self::chain(this, rest, 0) == next);
    }

    /// Giving back a slot that is in use to a well-formed slab leaves a
    /// well-formed slab with that slot first in the free list, and changes
    /// only the first word of the slot and the header's free pointer and
    /// count.
    #[verifier::rlimit(50)]
    pub proof fn lemma_release(
        image: Seq<u8>,
        bytes: Map<int, u8>,
        this: u64,
        free: Seq<int>,
        used: int,
        i: int,
    )
        requires
            Self::is_slab(bytes, this, free, used),
            load::<FixedObjArray<T, N>>(bytes, this) == Ok::<Seq<u8>, Error>(image),
            0 <= i < N,
            !free.contains(i),
        ensures
            used > 0,
            Self::release_spec(image, bytes, this, Self::slot_at(this, i)) matches Ok(
                (after, fresh),
            ) && {
                &&& Self::is_slab(after, this, seq![i] + free, used - 1)
                &&& load::<FixedObjArray<T, N>>(after, this) == Ok::<Seq<u8>, Error>(fresh)
                &&& forall|a: int| after.contains_key(a) == bytes.contains_key(a)
                &&& forall|a: int|
                    bytes.contains_key(a) && !(this <= a < this + 4) && !(this + 16 <= a < this + 24)
                        && !(Self::slot_at(this, i) <= a < Self::slot_at(this, i) + 8) ==> after[a]
                        == bytes[a]
            },
    {
        let more = seq![i] + free;
        let slot = Self::slot_at(this, i);
        let head = Self::chain(this, free, 0);
        let total = Self::total_size();
        assert forall|k: int| 0 <= k < free.len() implies 0 <= #[trigger] free[k] < N by {
            assert(Self::free_slot(bytes, this, free, k));
        }
        Self::lemma_counted(free, i);
        Self::lemma_size();
        Self::lemma_slab_fields(bytes, this);
        Self::lemma_slot_place(this, i, i);
        lemma_auto_spec_u64_to_from_le_bytes();
        let free_at = (this + SLAB_FREE) as u64;
        let num_at = (this + SLAB_PTR_NUM) as u64;
        let d0 = Pointer::<u8>::encode(head);
        let b0 = written(bytes, slot as int, d0);
        lemma_written_covered(bytes, slot as int, d0, this as int, total);
        Self::lemma_slab_fields(b0, this);
        lemma_load_outside::<i32>(bytes, slot as int, d0, num_at);
        lemma_load_outside::<Pointer>(bytes, slot as int, d0, free_at);
        lemma_read_after_write::<FreeListNode>(bytes, slot, FreeListNode {
            next_free: Pointer::new_spec(head),
        });
        let d1 = Pointer::<u8>::encode(slot);
        let b1 = written(b0, free_at as int, d1);
        lemma_written_covered(b0, free_at as int, d1, this as int, total);
        Self::lemma_slab_fields(b1, this);
        lemma_load_outside::<i32>(b0, free_at as int, d1, num_at);
        lemma_load_outside::<FreeListNode>(b0, free_at as int, d1, slot);
        lemma_read_after_write::<Pointer>(b0, free_at, slot);
        let count = (used - 1) as i32;
        let d2 = i32::encode(count);
        i32::lemma_layout(count);
        let b2 = written(b1, num_at as int, d2);
        lemma_written_covered(b1, num_at as int, d2, this as int, total);
        Self::lemma_slab_fields(b2, this);
        lemma_read_after_write::<i32>(b1, num_at, count);
        lemma_load_outside::<Pointer>(b1, num_at as int, d2, free_at);
        lemma_load_outside::<FreeListNode>(b1, num_at as int, d2, slot);
        assert(Self::release_spec(image, bytes, this, slot) == Ok::<(Map<int, u8>, Seq<u8>), Error>(
            (b2, load::<FixedObjArray<T, N>>(b2, this)->Ok_0),
        ));
        lemma_bytes_at_split(bytes, this as int, total, 16);
        lemma_bytes_at_split(bytes, this + 16, total - 16, 8);
        lemma_bytes_at_split(bytes, this as int, 16, 4);
        lemma_bytes_at_split(bytes, this as int, total, slot - this);
        lemma_bytes_at_split(bytes, slot as int, total - (slot - this), 8);
        assert forall|a: int| b2.contains_key(a) == bytes.contains_key(a) by {}
        assert forall|k: int| 0 <= k < more.len() implies #[trigger] Self::free_slot(
            b2,
            this,
            more,
            k,
        ) by {
            if k == 0 {
                assert(Self::chain(this, more, 1) == head);
            } else {
                assert(Self::free_slot(bytes, this, free, k - 1));
                assert(more[k] == free[k - 1]);
                assert(free.contains(free[k - 1]));
                let j = free[k - 1];
                Self::lemma_slot_place(this, j, i);
                Self::lemma_slot_place(this, i, j);
                let at = Self::slot_at(this, j);
                lemma_load_outside::<FreeListNode>(bytes, slot as int, d0, at);
                lemma_load_outside::<FreeListNode>(b0, free_at as int, d1, at);
                lemma_load_outside::<FreeListNode>(b1, num_at as int, d2, at);
                assert(Self::chain(this, more, k + 1) == Self::chain(this, free, k));
            }
        }
        assert(more.no_duplicates()) by {
            assert forall|a: int, b: int| 0 <= a < more.len() && 0 <= b < more.len() && a != b implies more[a]
                != more[b] by {
                if a > 0 {
                    assert(free.contains(free[a - 1]));
                }
                if b > 0 {
                    assert(free.contains(free[b - 1]));
                }
            }
        }
        assert(Self::chain(this, more, 0) == slot);
    }

    /// A free list that lacks a slot holds fewer slots than the slab has.
    proof fn lemma_counted(free: Seq<int>, i: int)
        requires
            free.no_duplicates(),
            forall|k: int| 0 <= k < free.len() ==> 0 <= #[trigger] free[k] < N,
            0 <= i < N,
            !free.contains(i),
        ensures
            free.len() < N,
    {
        let more = free.push(i);
        assert forall|a: int, b: int| 0 <= a < more.len() && 0 <= b < more.len() && a != b implies more[a]
            != more[b] by {
            if a < free.len() {
                assert(free.contains(free[a]));
            }
            if b < free.len() {
                assert(free.contains(free[b]));
            }
        }
        let wide = Seq::new(more.len(), |k: int| more[k] as u64);
        assert forall|a: int, b: int| 0 <= a < wide.len() && 0 <= b < wide.len() && a != b implies wide[a]
            != wide[b] by {
            assert(more[a] != more[b]);
        }
        crate::list::lemma_distinct_bounded(wide, 0, N as int);
    }
}

impl<T: Updatable, const N: usize> FixedObjArray<T, N> {
    /// The store at position `k` of the stores that build a slab.
    pub open spec fn ctor_store(this: u64, k: int) -> (u64, Seq<u8>) {
        if k == 0 {
            (
                (this + SLAB_FREE) as u64,
                Pointer::<u8>::encode(
                    if N > 0 {
                        Self::slot_at(this, 0)
                    } else {
                        0
                    },
                ),
            )
        } else if k <= N {
            (
                Self::slot_at(this, k - 1),
                Pointer::<u8>::encode(
                    if k < N {
                        Self::slot_at(this, k)
                    } else {
                        0
                    },
                ),
            )
        } else if k == N + 1 {
            ((this + SLAB_WORK_PTR) as u64, Pointer::<u8>::encode((this + SLAB_WORK) as u64))
        } else if k == N + 2 {
            ((this + SLAB_PTRS) as u64, Pointer::<u8>::encode(Self::slot_at(this, N as int)))
        } else if k == N + 3 {
            ((this + SLAB_PTR_NUM) as u64, i32::encode(0))
        } else {
            ((this + SLAB_PTR_NUM_MAX) as u64, i32::encode(Self::count_max()))
        }
    }

    /// The stores that build a slab, one by one.
    proof fn lemma_ctor_script(this: u64)
        ensures
            Self::ctor_script(this).len() == N + 5,
            forall|k: int|
                0 <= k < N + 5 ==> #[trigger] Self::ctor_script(this)[k] == Self::ctor_store(this, k),
    {
    }

    /// Building a slab where it can lie, in bytes that are stored, leaves a
    /// well-formed slab in which every slot is free, in the order of the
    /// slots, and changes no byte outside the slab.
    #[verifier::rlimit(50)]
    pub proof fn lemma_ctor(image: Seq<u8>, bytes: Map<int, u8>, this: u64)
        requires
            N <= i32::MAX,
            Self::total_size() <= usize::MAX,
            in_window(this as int, Self::total_size()),
            covered(bytes, this as int, Self::total_size()),
        ensures
            Self::ctor_spec(image, bytes, this) matches Ok((after, fresh)) && {
                &&& Self::is_slab(after, this, Seq::new(N as nat, |i: int| i), 0)
                &&& load::<FixedObjArray<T, N>>(after, this) == Ok::<Seq<u8>, Error>(fresh)
                &&& load::<Pointer>(after, (this + SLAB_PTRS) as u64) == Ok::<u64, Error>(
                    Self::slot_at(this, N as int),
                )
                &&& forall|a: int| after.contains_key(a) == bytes.contains_key(a)
                &&& forall|a: int|
                    bytes.contains_key(a) && !(this <= a < this + Self::total_size()) ==> after[a]
                        == bytes[a]
            },
    {
        reveal(FixedObjArray::ctor_spec);
        let script = Self::ctor_script(this);
        let total = Self::total_size();
        let unit = slot_size::<T>();
        let all = Seq::new(N as nat, |i: int| i);
        Self::lemma_ctor_script(this);
        Self::lemma_size();
        lemma_auto_spec_u64_to_from_le_bytes();
        i32::lemma_layout(0);
        i32::lemma_layout(Self::count_max());
        assert(N * (unit + 8) >= N * unit >= 0) by (nonlinear_arith)
            requires
                unit >= 0,
        ;
        // Every store lies inside the slab.
        assert forall|k: int| 0 <= k < script.len() implies this <= (#[trigger] script[k]).0
            && script[k].0 + script[k].1.len() <= this + total && script[k].1.len() <= 8 by {
            assert(script[k] == Self::ctor_store(this, k));
            if 1 <= k <= N {
                Self::lemma_slot_place(this, k - 1, k - 1);
            }
        }
        assert(stores_in_window(script));
        lemma_run_ok::<FixedObjArray<T, N>>(bytes, image, this, script);
        let after = applied(bytes, script);
        assert forall|k: int| 0 <= k < script.len() implies covered(
            bytes,
            (#[trigger] script[k]).0 as int,
            script[k].1.len() as int,
        ) by {
            assert(this <= script[k].0 && script[k].0 + script[k].1.len() <= this + total);
        }
        lemma_applied_frame(bytes, script);
        assert forall|a: int| bytes.contains_key(a) && !(this <= a < this + total) implies after[a]
            == bytes[a] by {
            assert forall|k: int| 0 <= k < script.len() implies a + 1 <= (#[trigger] script[k]).0
                || script[k].0 + script[k].1.len() <= a by {
                assert(this <= script[k].0 && script[k].0 + script[k].1.len() <= this + total);
            }
            assert(stores_apart(script, 0, a, 1));
        }
        // The count of slots in use.
        assert(stores_apart(script, N + 4, this as int, 4)) by {
            assert forall|k: int| N + 4 <= k < script.len() implies this + 4 <= (
            #[trigger] script[k]).0 || script[k].0 + script[k].1.len() <= this by {
                assert(script[k] == Self::ctor_store(this, k));
            }
        }
        assert(script[N + 3] == Self::ctor_store(this, N + 3));
        lemma_applied_stored::<i32>(bytes, script, N + 3, (this + SLAB_PTR_NUM) as u64, 0i32);
        // The pointer to the table.
        assert(stores_apart(script, N + 3, this + 8, 8)) by {
            assert forall|k: int| N + 3 <= k < script.len() implies this + 16 <= (
            #[trigger] script[k]).0 || script[k].0 + script[k].1.len() <= this + 8 by {
                assert(script[k] == Self::ctor_store(this, k));
            }
        }
        assert(script[N + 2] == Self::ctor_store(this, N + 2));
        lemma_applied_stored::<Pointer>(
            bytes,
            script,
            N + 2,
            (this + SLAB_PTRS) as u64,
            Self::slot_at(this, N as int),
        );
        // The start of the free list.
        let first = Self::chain(this, all, 0);
        assert(stores_apart(script, 1, this + 16, 8)) by {
            assert forall|k: int| 1 <= k < script.len() implies this + 24 <= (#[trigger] script[k]).0
                || script[k].0 + script[k].1.len() <= this + 16 by {
                assert(script[k] == Self::ctor_store(this, k));
                if k <= N {
                    Self::lemma_slot_place(this, k - 1, k - 1);
                }
            }
        }
        assert(script[0] == Self::ctor_store(this, 0));
        lemma_applied_stored::<Pointer>(bytes, script, 0, (this + SLAB_FREE) as u64, first);
        // The slots.
        assert forall|k: int| 0 <= k < all.len() implies #[trigger] Self::free_slot(
            after,
            this,
            all,
            k,
        ) by {
            let at = Self::slot_at(this, k);
            let next = Self::chain(this, all, k + 1);
            Self::lemma_slot_place(this, k, k);
            assert(script[k + 1] == Self::ctor_store(this, k + 1));
            assert(stores_apart(script, k + 2, at as int, 8)) by {
                assert forall|j: int| k + 2 <= j < script.len() implies at + 8 <= (
                #[trigger] script[j]).0 || script[j].0 + script[j].1.len() <= at by {
                    assert(script[j] == Self::ctor_store(this, j));
                    if j <= N {
                        Self::lemma_slot_place(this, k, j - 1);
                    }
                }
            }
            lemma_applied_stored::<FreeListNode>(
                bytes,
                script,
                k + 1,
                at,
                FreeListNode { next_free: Pointer::new_spec(next) },
            );
        }
        assert(all.no_duplicates());
    }
}

impl<T: Updatable, const N: usize> FixedObjArray<T, N> {
    /// What taking `k` slots, one after the other, gives: the bytes
    /// afterwards, the slab as it then lies at `this`, and the slots that
    /// were taken, in their order.
    pub open spec fn acquire_many(image: Seq<u8>, bytes: Map<int, u8>, this: u64, k: nat) -> Result<
        (Map<int, u8>, Seq<u8>, Seq<u64>),
        Error,
    >
        decreases k,
    {
        if k == 0 {
            Ok((bytes, image, Seq::empty()))
        } else {
            match Self::acquire_spec(image, bytes, this) {
                Err(e) => Err(e),
                Ok((b1, s1, slot)) => match Self::acquire_many(s1, b1, this, (k - 1) as nat) {
                    Err(e) => Err(e),
                    Ok((b2, s2, rest)) => Ok((b2, s2, seq![slot] + rest)),
                },
            }
        }
    }

    /// What giving back the slots at `slots`, one after the other, gives:
    /// the bytes afterwards and the slab as it then lies at `this`.
    pub open spec fn release_many(image: Seq<u8>, bytes: Map<int, u8>, this: u64, slots: Seq<u64>) -> Result<
        (Map<int, u8>, Seq<u8>),
        Error,
    >
        decreases slots.len(),
    {
        if slots.len() == 0 {
            Ok((bytes, image))
        } else {
            match Self::release_spec(image, bytes, this, slots[0]) {
                Err(e) => Err(e),
                Ok((b1, s1)) => Self::release_many(s1, b1, this, slots.drop_first()),
            }
        }
    }

    /// Taking `k` slots from a well-formed slab that has as many free gives
    /// the first `k` slots of its free list, no slot twice, and leaves a
    /// well-formed slab with `k` more slots in use.
    pub proof fn lemma_acquire_many(
        image: Seq<u8>,
        bytes: Map<int, u8>,
        this: u64,
        free: Seq<int>,
        used: int,
        k: nat,
    )
        requires
            Self::is_slab(bytes, this, free, used),
            load::<FixedObjArray<T, N>>(bytes, this) == Ok::<Seq<u8>, Error>(image),
            k <= free.len(),
        ensures
            Self::acquire_many(image, bytes, this, k) matches Ok((after, fresh, slots)) && {
                &&& slots == Seq::new(k, |i: int| Self::slot_at(this, free[i]))
                &&& slots.no_duplicates()
                &&& Self::is_slab(after, this, free.skip(k as int), used + k)
                &&& load::<FixedObjArray<T, N>>(after, this) == Ok::<Seq<u8>, Error>(fresh)
                &&& Self::ptr_num_of(fresh) == used + k
            },
        decreases k,
    {
        Self::lemma_slab_fields(bytes, this);
        if k == 0 {
            assert(free.skip(0) =~= free);
            assert(Seq::<u64>::empty() =~= Seq::new(0, |i: int| Self::slot_at(this, free[i])));
        } else {
            Self::lemma_acquire(image, bytes, this, free, used);
            let (b1, s1, slot) = Self::acquire_spec(image, bytes, this)->Ok_0;
            let rest = free.drop_first();
            Self::lemma_acquire_many(s1, b1, this, rest, used + 1, (k - 1) as nat);
            let (b2, s2, more) = Self::acquire_many(s1, b1, this, (k - 1) as nat)->Ok_0;
            let slots = seq![slot] + more;
            assert(rest.skip(k - 1) =~= free.skip(k as int));
            assert(slots =~= Seq::new(k, |i: int| Self::slot_at(this, free[i])));
            assert forall|a: int, b: int| 0 <= a < b < slots.len() implies slots[a] != slots[b] by {
                assert(Self::free_slot(bytes, this, free, a));
                assert(Self::free_slot(bytes, this, free, b));
                assert(free[a] != free[b]);
                Self::lemma_slot_place(this, free[a], free[b]);
                Self::lemma_slot_place(this, free[b], free[a]);
            }
        }
    }

    /// Giving back slots that are in use, no slot twice, to a well-formed
    /// slab leaves a well-formed slab with as many fewer slots in use, and
    /// the slots that were given back first in its free list, the last of
    /// them foremost.
    pub proof fn lemma_release_many(
        image: Seq<u8>,
        bytes: Map<int, u8>,
        this: u64,
        free: Seq<int>,
        used: int,
        held: Seq<int>,
    )
        requires
            Self::is_slab(bytes, this, free, used),
            load::<FixedObjArray<T, N>>(bytes, this) == Ok::<Seq<u8>, Error>(image),
            held.no_duplicates(),
            forall|i: int| 0 <= i < held.len() ==> 0 <= #[trigger] held[i] < N && !free.contains(held[i]),
        ensures
            held.len() <= used,
            Self::release_many(
                image,
                bytes,
                this,
                Seq::new(held.len(), |i: int| Self::slot_at(this, held[i])),
            ) matches Ok((after, fresh)) && {
                &&& Self::is_slab(after, this, held.reverse() + free, used - held.len())
                &&& load::<FixedObjArray<T, N>>(after, this) == Ok::<Seq<u8>, Error>(fresh)
                &&& Self::ptr_num_of(fresh) == used - held.len()
            },
        decreases held.len(),
    {
        let slots = Seq::new(held.len(), |i: int| Self::slot_at(this, held[i]));
        Self::lemma_slab_fields(bytes, this);
        if held.len() == 0 {
            assert(held.reverse() + free =~= free);
        } else {
            Self::lemma_release(image, bytes, this, free, used, held[0]);
            let (b1, s1) = Self::release_spec(image, bytes, this, slots[0])->Ok_0;
            let more = seq![held[0]] + free;
            let rest = held.drop_first();
            assert forall|i: int| 0 <= i < rest.len() implies 0 <= #[trigger] rest[i] < N
                && !more.contains(rest[i]) by {
                assert(rest[i] == held[i + 1]);
                if more.contains(rest[i]) {
                    let j = choose|j: int| 0 <= j < more.len() && more[j] == rest[i];
                    if j > 0 {
                        assert(free[j - 1] == more[j]);
                        assert(free.contains(held[i + 1]));
                    }
                }
            }
            assert(rest.no_duplicates());
            Self::lemma_release_many(s1, b1, this, more, used - 1, rest);
            assert(slots.drop_first() =~= Seq::new(rest.len(), |i: int| Self::slot_at(this, rest[i])));
            assert(rest.reverse() + more =~= held.reverse() + free);
        }
    }

    /// After `k` slots have been taken from a well-formed slab, and `j` of
    /// them have been given back, `k - j` more slots are in use than
    /// before; and no slot is taken twice before it is given back.
    pub proof fn lemma_accounting(
        image: Seq<u8>,
        bytes: Map<int, u8>,
        this: u64,
        free: Seq<int>,
        used: int,
        k: nat,
        j: nat,
    )
        requires
            Self::is_slab(bytes, this, free, used),
            load::<FixedObjArray<T, N>>(bytes, this) == Ok::<Seq<u8>, Error>(image),
            j <= k <= free.len(),
        ensures
            Self::acquire_many(image, bytes, this, k) matches Ok((b1, s1, slots)) && slots.len() == k
                && slots.no_duplicates() && Self::ptr_num_of(s1) == used + k && (Self::release_many(
                s1,
                b1,
                this,
                slots.take(j as int),
            ) matches Ok((b2, s2)) && Self::ptr_num_of(s2) == used + k - j && Self::is_slab(
                b2,
                this,
                free.take(j as int).reverse() + free.skip(k as int),
                used + k - j,
            )),
    {
        Self::lemma_acquire_many(image, bytes, this, free, used, k);
        let (b1, s1, slots) = Self::acquire_many(image, bytes, this, k)->Ok_0;
        let held = free.take(j as int);
        let left = free.skip(k as int);
        assert forall|i: int| 0 <= i < held.len() implies 0 <= #[trigger] held[i] < N
            && !left.contains(held[i]) by {
            assert(Self::free_slot(bytes, this, free, i));
            if left.contains(held[i]) {
                let m = choose|m: int| 0 <= m < left.len() && left[m] == held[i];
                assert(free[m + k] == free[i]);
            }
        }
        assert(held.no_duplicates());
        Self::lemma_release_many(s1, b1, this, left, used + k, held);
        assert(slots.take(j as int) =~= Seq::new(held.len(), |i: int| Self::slot_at(this, held[i])));
    }
}

impl<T: Updatable, const N: usize> FixedObjArray<T, N> {
    /// A well-formed slab stays so where the bytes of its header, and of
    /// the first word of each of its free slots, stay as they are, and the
    /// slab stays stored.
    pub proof fn lemma_slab_kept(
        before: Map<int, u8>,
        after: Map<int, u8>,
        this: u64,
        free: Seq<int>,
        used: int,
    )
        requires
            Self::is_slab(before, this, free, used),
            covered(after, this as int, Self::total_size()),
            same_bytes(before, after, this as int, SLAB_WORK as int),
            forall|k: int|
                0 <= k < free.len() ==> same_bytes(
                    before,
                    after,
                    Self::slot_at(this, #[trigger] free[k]) as int,
                    8,
                ),
        ensures
            Self::is_slab(after, this, free, used),
    {
        Self::lemma_size();
        lemma_same_bytes_part(before, after, this as int, 32, this as int, 4);
        lemma_same_bytes_part(before, after, this as int, 32, this + 16, 8);
        lemma_load_same::<i32>(before, after, (this + SLAB_PTR_NUM) as u64);
        lemma_load_same::<Pointer>(before, after, (this + SLAB_FREE) as u64);
        assert forall|k: int| 0 <= k < free.len() implies #[trigger] Self::free_slot(
            after,
            this,
            free,
            k,
        ) by {
            assert(Self::free_slot(before, this, free, k));
            assert(same_bytes(before, after, Self::slot_at(this, free[k]) as int, 8));
            lemma_load_same::<FreeListNode>(before, after, Self::slot_at(this, free[k]));
        }
    }
}

} // verus!
