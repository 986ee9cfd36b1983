//! The game's fixed-capacity string: a header that points at its own buffer,
//! and the buffer.
use vstd::bytes::*;
use vstd::prelude::*;
use vstd::string::StringSliceAdditionalSpecFns;

use crate::error::Error;
use crate::image::{copy_range, field, lemma_field_loaded, read_field};
use crate::script::{refreshed, write_refresh};
use crate::mem::{
    bytes_at, covered, in_window, lemma_load_outside, lemma_read_after_write,
    lemma_same_bytes_chain, lemma_written_covered, lemma_written_same_but, lemma_written_same_bytes,
    load, Memory, Pointer, same_but, same_bytes, shifted, store, wrap, write_at, written,
};
use crate::traits::{Constructor, Updatable};

verus! {

/// Offset of the pointer to a string's table of virtual functions.
pub const STRING_VPTR: usize = 0;

/// Offset of the pointer to a string's first character.
pub const STRING_TOP: usize = 8;

/// Offset of a string's capacity.
pub const STRING_BUFFER_SIZE: usize = 16;

/// Offset of a string's buffer.
pub const STRING_BUFFER: usize = 20;

/// Offset, in the table of virtual functions, of the function that
/// terminates a string.
pub const VTABLE_ASSURE_TERMINATION: usize = 24;

/// The most characters that a comparison looks at.
pub const COMPARE_LIMIT: u64 = 0x80000;

/// The table of virtual functions of a string.
pub struct FixedSafeStringVTable {
    pub super_dtor: Pointer,
    pub super_assure_termination_impl: Pointer,
    pub dtor: Pointer,
    pub assure_termination_impl: Pointer,
}

impl View for FixedSafeStringVTable {
    type V = FixedSafeStringVTable;

    open spec fn view(&self) -> FixedSafeStringVTable {
        *self
    }
}

impl Clone for FixedSafeStringVTable {
    fn clone(&self) -> (r: Self)
        ensures
            r == *self,
    {
        *self
    }
}

impl Copy for FixedSafeStringVTable {

}

impl Updatable for FixedSafeStringVTable {
    open spec fn layout_size() -> usize {
        32
    }

    open spec fn decode(bytes: Seq<u8>) -> FixedSafeStringVTable {
        FixedSafeStringVTable {
            super_dtor: Pointer::new_spec(field::<Pointer>(bytes, 0)),
            super_assure_termination_impl: Pointer::new_spec(field::<Pointer>(bytes, 8)),
            dtor: Pointer::new_spec(field::<Pointer>(bytes, 16)),
            assure_termination_impl: Pointer::new_spec(field::<Pointer>(bytes, 24)),
        }
    }

    open spec fn encode(value: FixedSafeStringVTable) -> Seq<u8> {
        Pointer::<u8>::encode(value.super_dtor@) + Pointer::<u8>::encode(
            value.super_assure_termination_impl@,
        ) + Pointer::<u8>::encode(value.dtor@) + Pointer::<u8>::encode(
            value.assure_termination_impl@,
        )
    }

    open spec fn representable(value: FixedSafeStringVTable) -> bool {
        true
    }

    proof fn lemma_layout(value: FixedSafeStringVTable) {
        lemma_auto_spec_u64_to_from_le_bytes();
        let image = Self::encode(value);
        assert(image.subrange(0, 8) =~= spec_u64_to_le_bytes(value.super_dtor.address));
        assert(image.subrange(8, 16) =~= spec_u64_to_le_bytes(
            value.super_assure_termination_impl.address,
        ));
        assert(image.subrange(16, 24) =~= spec_u64_to_le_bytes(value.dtor.address));
        assert(image.subrange(24, 32) =~= spec_u64_to_le_bytes(
            value.assure_termination_impl.address,
        ));
    }

    fn size() -> (n: usize) {
        32
    }

    fn from_bytes(bytes: &[u8]) -> (value: Self) {
        let value = FixedSafeStringVTable {
            super_dtor: read_field::<Pointer>(bytes, 0),
            super_assure_termination_impl: read_field::<Pointer>(bytes, 8),
            dtor: read_field::<Pointer>(bytes, 16),
            assure_termination_impl: read_field::<Pointer>(bytes, 24),
        };
        assert(Self::representable(value@));
        assert(value@ == Self::decode(bytes@));
        value
    }

    fn to_bytes(&self) -> (bytes: Vec<u8>) {
        let mut bytes = self.super_dtor.to_bytes();
        let mut b = self.super_assure_termination_impl.to_bytes();
        let mut c = self.dtor.to_bytes();
        let mut d = self.assure_termination_impl.to_bytes();
        bytes.append(&mut b);
        bytes.append(&mut c);
        bytes.append(&mut d);
        proof {
            assert(Self::representable(self@));
            assert(bytes@ == Self::encode(self@));
            Self::lemma_layout(self@);
        }
        bytes
    }
}

/// The bytes of `s` before its first zero byte.
pub open spec fn until_nul(s: Seq<u8>) -> Seq<u8>
    decreases s.len(),
{
    if s.len() == 0 || s[0] == 0 {
        Seq::empty()
    } else {
        seq![s[0]] + until_nul(s.drop_first())
    }
}

/// The byte at `i` of the text `text` taken as a string that a zero byte ends.
pub open spec fn text_byte(text: Seq<u8>, i: int) -> u8 {
    if 0 <= i < text.len() {
        text[i]
    } else {
        0
    }
}

/// Whether the string at `top` in memory equals `text` from character `i`
/// on: the first character that differs decides against, the zero byte that
/// ends both decides for, and so many characters that the limit is passed
/// decide against.
pub open spec fn compare_text(bytes: Map<int, u8>, top: u64, text: Seq<u8>, i: int) -> Result<
    bool,
    Error,
>
    decreases COMPARE_LIMIT + 1 - i,
{
    if i < 0 || i > COMPARE_LIMIT {
        Ok(false)
    } else {
        match load::<i8>(bytes, wrap(top + i)) {
            Err(e) => Err(e),
            Ok(current) => if current != text_byte(text, i) as i8 {
                Ok(false)
            } else if current == 0 {
                Ok(true)
            } else {
                compare_text(bytes, top, text, i + 1)
            },
        }
    }
}

/// Whether the strings at `top` and at `other` in memory are equal from
/// character `i` on.
pub open spec fn compare_strings(bytes: Map<int, u8>, top: u64, other: u64, i: int) -> Result<
    bool,
    Error,
>
    decreases COMPARE_LIMIT + 1 - i,
{
    if i < 0 || i > COMPARE_LIMIT {
        Ok(false)
    } else {
        match load::<i8>(bytes, wrap(top + i)) {
            Err(e) => Err(e),
            Ok(current) => match load::<i8>(bytes, wrap(other + i)) {
                Err(e) => Err(e),
                Ok(theirs) => if current != theirs {
                    Ok(false)
                } else if current == 0 {
                    Ok(true)
                } else {
                    compare_strings(bytes, top, other, i + 1)
                },
            },
        }
    }
}

/// A string of at most `L` bytes, as it lies in memory: the pointer to its
/// virtual functions, the pointer to its first character, its capacity, and
/// the buffer. The view is the whole byte image.
pub struct FixedSafeString<const L: usize> {
    image: Vec<u8>,
}

impl<const L: usize> View for FixedSafeString<L> {
    type V = Seq<u8>;

    closed spec fn view(&self) -> Seq<u8> {
        self.image@
    }
}

impl<const L: usize> Clone for FixedSafeString<L> {
    fn clone(&self) -> (r: Self)
        ensures
            r@ == self@,
    {
        proof {
            use_type_invariant(self);
        }
        FixedSafeString { image: copy_range(self.image.as_slice(), 0, self.image.len()) }
    }
}

impl<const L: usize> Updatable for FixedSafeString<L> {
    open spec fn layout_size() -> usize {
        ((Self::capacity() + 27) / 8 * 8) as usize
    }

    open spec fn decode(bytes: Seq<u8>) -> Seq<u8> {
        bytes
    }

    open spec fn encode(value: Seq<u8>) -> Seq<u8> {
        value
    }

    open spec fn representable(value: Seq<u8>) -> bool {
        value.len() == Self::layout_size()
    }

    proof fn lemma_layout(value: Seq<u8>) {
    }

    fn size() -> (n: usize) {
        let capacity: usize = if L <= 0x7fff_ffff {
            L
        } else {
            0x7fff_ffff
        };
        (capacity + 27) / 8 * 8
    }

    fn from_bytes(bytes: &[u8]) -> (value: Self) {
        let value = FixedSafeString { image: copy_range(bytes, 0, bytes.len()) };
        assert(bytes@.subrange(0, bytes@.len() as int) =~= bytes@);
        assert(Self::representable(value@));
        assert(value@ == Self::decode(bytes@));
        value
    }

    fn to_bytes(&self) -> (bytes: Vec<u8>) {
        proof {
            use_type_invariant(self);
        }
        let bytes = copy_range(self.image.as_slice(), 0, self.image.len());
        assert(self@.subrange(0, self@.len() as int) =~= self@);
        assert(Self::representable(self@));
        assert(bytes@ == Self::encode(self@));
        bytes
    }
}

impl<const L: usize> FixedSafeString<L> {
    #[verifier::type_invariant]
    spec fn inv(self) -> bool {
        self.image@.len() == Self::layout_size()
    }

    /// The number of bytes of the buffer.
    pub open spec fn capacity() -> int {
        if L <= i32::MAX {
            L as int
        } else {
            i32::MAX as int
        }
    }

    /// The pointer to the table of virtual functions that an image holds.
    pub open spec fn vptr_of(image: Seq<u8>) -> u64 {
        field::<Pointer>(image, STRING_VPTR as int)
    }

    /// The pointer to the first character that an image holds.
    pub open spec fn top_of(image: Seq<u8>) -> u64 {
        field::<Pointer>(image, STRING_TOP as int)
    }

    /// The capacity that an image holds.
    pub open spec fn buffer_size_of(image: Seq<u8>) -> i32 {
        field::<i32>(image, STRING_BUFFER_SIZE as int)
    }

    /// The buffer that an image holds.
    pub open spec fn buffer_of(image: Seq<u8>) -> Seq<u8> {
        image.subrange(STRING_BUFFER as int, STRING_BUFFER + Self::capacity())
    }

    /// The pointer to the table of virtual functions.
    pub fn vptr(&self) -> (p: Pointer<FixedSafeStringVTable>)
        ensures
            p.address == Self::vptr_of(self@),
            self@.len() == Self::layout_size(),
    {
        proof {
            use_type_invariant(self);
        }
        read_field::<Pointer>(self.image.as_slice(), STRING_VPTR).cast()
    }

    /// The pointer to the first character.
    pub fn string_top(&self) -> (p: Pointer<i8>)
        ensures
            p.address == Self::top_of(self@),
            self@.len() == Self::layout_size(),
    {
        proof {
            use_type_invariant(self);
        }
        read_field::<Pointer>(self.image.as_slice(), STRING_TOP).cast()
    }

    /// The capacity that the header states.
    pub fn buffer_size(&self) -> (n: i32)
        ensures
            n == Self::buffer_size_of(self@),
            self@.len() == Self::layout_size(),
    {
        proof {
            use_type_invariant(self);
        }
        read_field::<i32>(self.image.as_slice(), STRING_BUFFER_SIZE)
    }

    /// The bytes of the buffer before its first zero byte.
    pub fn text(&self) -> (out: Vec<u8>)
        ensures
            out@ == until_nul(Self::buffer_of(self@)),
    {
        proof {
            use_type_invariant(self);
        }
        let capacity: usize = if L <= 0x7fff_ffff {
            L
        } else {
            0x7fff_ffff
        };
        let mut out: Vec<u8> = Vec::new();
        let ghost buffer = Self::buffer_of(self@);
        let mut i: usize = 0;
        assert(buffer.subrange(0, capacity as int) =~= buffer);
        assert(Seq::<u8>::empty() + until_nul(buffer) =~= until_nul(buffer));
        while i < capacity && self.image[STRING_BUFFER + i] != 0
            invariant
                0 <= i <= capacity,
                capacity == Self::capacity(),
                self.image@.len() == Self::layout_size(),
                self.image@ == self@,
                buffer == Self::buffer_of(self@),
                until_nul(buffer) == out@ + until_nul(buffer.subrange(i as int, capacity as int)),
            decreases capacity - i,
        {
            let ghost rest = buffer.subrange(i as int, capacity as int);
            assert(rest[0] == self.image@[STRING_BUFFER + i]);
            assert(rest.drop_first() =~= buffer.subrange(i + 1, capacity as int));
            let ghost before = out@;
            out.push(self.image[STRING_BUFFER + i]);
            assert(out@ + until_nul(rest.drop_first()) =~= before + (seq![rest[0]] + until_nul(
                rest.drop_first(),
            )));
            i += 1;
        }
        proof {
            let rest = buffer.subrange(i as int, capacity as int);
            if i < capacity {
                assert(rest[0] == self.image@[STRING_BUFFER + i]);
            }
            assert(until_nul(rest) =~= Seq::<u8>::empty());
            assert(out@ + Seq::<u8>::empty() =~= out@);
        }
        out
    }

    /// What ending the string gives: a zero byte in the last place of the
    /// buffer, and the string as it then lies at `this`.
    pub open spec fn terminate_spec(image: Seq<u8>, bytes: Map<int, u8>, this: u64) -> Result<
        (Map<int, u8>, Seq<u8>),
        Error,
    > {
        refreshed::<i8, FixedSafeString<L>>(
            bytes,
            wrap(Self::top_of(image) + Self::buffer_size_of(image) - 1),
            0,
            this,
        )
    }

    /// What `assure_termination_impl` gives: the bytes afterwards and the
    /// string as it then lies at `this`.
    pub open spec fn assure_spec(image: Seq<u8>, bytes: Map<int, u8>, this: u64) -> Result<
        (Map<int, u8>, Seq<u8>),
        Error,
    > {
        match load::<Pointer>(bytes, wrap(Self::vptr_of(image) + VTABLE_ASSURE_TERMINATION)) {
            Err(e) => Err(e),
            Ok(function) => if !in_window(function as int, 1) {
                Err(Error::OutOfRange { address: function, len: 1 })
            } else {
                Self::terminate_spec(image, bytes, this)
            },
        }
    }

    /// What `is_equal_str` gives for the text `text`: the bytes afterwards,
    /// the string as it then lies at `this`, and the answer.
    pub open spec fn is_equal_str_spec(image: Seq<u8>, bytes: Map<int, u8>, this: u64, text: Seq<u8>) -> Result<
        (Map<int, u8>, Seq<u8>, bool),
        Error,
    > {
        match Self::assure_spec(image, bytes, this) {
            Err(e) => Err(e),
            Ok((after, fresh)) => match compare_text(after, Self::top_of(fresh), text, 0) {
                Err(e) => Err(e),
                Ok(equal) => Ok((after, fresh, equal)),
            },
        }
    }

    /// What `is_equal` gives for the string of image `other`.
    pub open spec fn is_equal_spec(image: Seq<u8>, bytes: Map<int, u8>, this: u64, other: Seq<u8>) -> Result<
        (Map<int, u8>, Seq<u8>, bool),
        Error,
    > {
        match Self::assure_spec(image, bytes, this) {
            Err(e) => Err(e),
            Ok((after, fresh)) => if Self::top_of(fresh) == Self::top_of(other) {
                Ok((after, fresh, true))
            } else {
                match compare_strings(after, Self::top_of(fresh), Self::top_of(other), 0) {
                    Err(e) => Err(e),
                    Ok(equal) => Ok((after, fresh, equal)),
                }
            },
        }
    }

    /// Ends the string: stores a zero byte in the last place of the buffer
    /// and reads the string again.
    pub fn terminate(&mut self, memory: &mut Memory, this: Pointer<Self>) -> (r: Result<(), Error>)
        ensures
            final(memory).wf(),
            match r {
                Ok(()) => Self::terminate_spec(old(self)@, old(memory).bytes(), this.address)
                    == Ok::<(Map<int, u8>, Seq<u8>), Error>((final(memory).bytes(), final(self)@)),
                Err(e) => Self::terminate_spec(old(self)@, old(memory).bytes(), this.address)
                    == Err::<(Map<int, u8>, Seq<u8>), Error>(e),
            },
    {
        let last = shifted(shifted(self.string_top().address, self.buffer_size() as i64), -1);
        write_refresh(memory, last, 0i8, self, &this)
    }

    /// Makes sure that the string ends, as the game does through the
    /// string's table of virtual functions: checks that the function which
    /// the game would call lies in the valid window, and ends the string.
    pub fn assure_termination_impl(&mut self, memory: &mut Memory, this: Pointer<Self>) -> (r:
        Result<(), Error>)
        ensures
            final(memory).wf(),
            match r {
                Ok(()) => Self::assure_spec(old(self)@, old(memory).bytes(), this.address) == Ok::<
                    (Map<int, u8>, Seq<u8>),
                    Error,
                >((final(memory).bytes(), final(self)@)),
                Err(e) => Self::assure_spec(old(self)@, old(memory).bytes(), this.address) == Err::<
                    (Map<int, u8>, Seq<u8>),
                    Error,
                >(e),
            },
    {
        let entry: Pointer<Pointer> = Pointer::new(
            shifted(self.vptr().address, VTABLE_ASSURE_TERMINATION as i64),
        );
        let function = match entry.read(memory) {
            Err(e) => {
                return Err(e);
            },
            Ok(function) => function,
        };
        if let Err(e) = function.validate() {
            return Err(e);
        }
        self.terminate(memory, this)
    }

    /// Whether the string equals `other`.
    pub fn is_equal_str(&mut self, memory: &mut Memory, this: Pointer<Self>, other: &str) -> (r:
        Result<bool, Error>)
        ensures
            final(memory).wf(),
            match r {
                Ok(equal) => Self::is_equal_str_spec(
                    old(self)@,
                    old(memory).bytes(),
                    this.address,
                    other.spec_bytes(),
                ) == Ok::<(Map<int, u8>, Seq<u8>, bool), Error>(
                    (final(memory).bytes(), final(self)@, equal),
                ),
                Err(e) => Self::is_equal_str_spec(
                    old(self)@,
                    old(memory).bytes(),
                    this.address,
                    other.spec_bytes(),
                ) == Err::<(Map<int, u8>, Seq<u8>, bool), Error>(e),
            },
    {
        if let Err(e) = self.assure_termination_impl(memory, this) {
            return Err(e);
        }
        let top = self.string_top().address;
        let text = other.as_bytes();
        let mut i: u64 = 0;
        while i <= COMPARE_LIMIT
            invariant
                0 <= i <= COMPARE_LIMIT + 1,
                memory.wf(),
                text@ == other.spec_bytes(),
                top == Self::top_of(self@),
                Self::assure_spec(old(self)@, old(memory).bytes(), this.address) == Ok::<
                    (Map<int, u8>, Seq<u8>),
                    Error,
                >((memory.bytes(), self@)),
                compare_text(memory.bytes(), top, text@, i as int) == compare_text(
                    memory.bytes(),
                    top,
                    text@,
                    0,
                ),
            decreases COMPARE_LIMIT + 1 - i,
        {
            let current = match memory.read::<i8>(shifted(top, i as i64)) {
                Err(e) => {
                    return Err(e);
                },
                Ok(current) => *current,
            };
            let theirs: u8 = if i < text.len() as u64 {
                text[i as usize]
            } else {
                0
            };
            if current != #[verifier::truncate] (theirs as i8) {
                return Ok(false);
            }
            if current == 0 {
                return Ok(true);
            }
            i += 1;
        }
        Ok(false)
    }

    /// Whether the string equals the string `other`.
    pub fn is_equal(&mut self, memory: &mut Memory, this: Pointer<Self>, other: &Self) -> (r:
        Result<bool, Error>)
        ensures
            final(memory).wf(),
            match r {
                Ok(equal) => Self::is_equal_spec(
                    old(self)@,
                    old(memory).bytes(),
                    this.address,
                    other@,
                ) == Ok::<(Map<int, u8>, Seq<u8>, bool), Error>(
                    (final(memory).bytes(), final(self)@, equal),
                ),
                Err(e) => Self::is_equal_spec(old(self)@, old(memory).bytes(), this.address, other@)
                    == Err::<(Map<int, u8>, Seq<u8>, bool), Error>(e),
            },
    {
        if let Err(e) = self.assure_termination_impl(memory, this) {
            return Err(e);
        }
        let top = self.string_top().address;
        let theirs = other.string_top().address;
        if top == theirs {
            return Ok(true);
        }
        let mut i: u64 = 0;
        while i <= COMPARE_LIMIT
            invariant
                0 <= i <= COMPARE_LIMIT + 1,
                memory.wf(),
                top == Self::top_of(self@),
                theirs == Self::top_of(other@),
                top != theirs,
                Self::assure_spec(old(self)@, old(memory).bytes(), this.address) == Ok::<
                    (Map<int, u8>, Seq<u8>),
                    Error,
                >((memory.bytes(), self@)),
                compare_strings(memory.bytes(), top, theirs, i as int) == compare_strings(
                    memory.bytes(),
                    top,
                    theirs,
                    0,
                ),
            decreases COMPARE_LIMIT + 1 - i,
        {
            let current = match memory.read::<i8>(shifted(top, i as i64)) {
                Err(e) => {
                    return Err(e);
                },
                Ok(current) => *current,
            };
            let other_current = match memory.read::<i8>(shifted(theirs, i as i64)) {
                Err(e) => {
                    return Err(e);
                },
                Ok(current) => *current,
            };
            if current != other_current {
                return Ok(false);
            }
            if current == 0 {
                return Ok(true);
            }
            i += 1;
        }
        Ok(false)
    }

    /// Makes the string empty: stores a zero byte at its first character.
    pub fn clear(&self, memory: &mut Memory) -> (r: Result<(), Error>)
        ensures
            final(memory).wf(),
            match r {
                Ok(()) => store::<i8>(old(memory).bytes(), Self::top_of(self@), 0) == Ok::<
                    Map<int, u8>,
                    Error,
                >(final(memory).bytes()),
                Err(e) => store::<i8>(old(memory).bytes(), Self::top_of(self@), 0) == Err::<
                    Map<int, u8>,
                    Error,
                >(e) && final(memory)@ == old(memory)@,
            },
    {
        memory.write(self.string_top().address, Box::new(0i8))
    }
}

/// The bytes that storing `text` in a buffer of `size` bytes stores: as many
/// of the first bytes of `text` as leave room for the zero byte that ends
/// them, and that byte. A buffer without room holds nothing.
pub open spec fn stored_text(text: Seq<u8>, size: i32) -> Seq<u8> {
    if size <= 0 {
        Seq::<u8>::empty()
    } else if text.len() < size {
        text.push(0u8)
    } else {
        text.subrange(0, size - 1).push(0u8)
    }
}

impl<const L: usize> FixedSafeString<L> {
    /// What `assign` gives for `text`: the bytes afterwards and the string
    /// as it then lies at `this`.
    pub open spec fn assign_spec(image: Seq<u8>, bytes: Map<int, u8>, this: u64, text: Seq<u8>) -> Result<
        (Map<int, u8>, Seq<u8>),
        Error,
    > {
        match write_at(
            bytes,
            Self::top_of(image),
            stored_text(text, Self::buffer_size_of(image)),
        ) {
            Err(e) => Err(e),
            Ok(after) => match load::<FixedSafeString<L>>(after, this) {
                Err(e) => Err(e),
                Ok(fresh) => Ok((after, fresh)),
            },
        }
    }

    /// Makes `text` the text of the string, as far as the buffer has room
    /// for it, and reads the string again.
    pub fn assign(&mut self, memory: &mut Memory, this: Pointer<Self>, text: &str) -> (r: Result<
        (),
        Error,
    >)
        ensures
            final(memory).wf(),
            match r {
                Ok(()) => Self::assign_spec(
                    old(self)@,
                    old(memory).bytes(),
                    this.address,
                    text.spec_bytes(),
                ) == Ok::<(Map<int, u8>, Seq<u8>), Error>((final(memory).bytes(), final(self)@)),
                Err(e) => Self::assign_spec(
                    old(self)@,
                    old(memory).bytes(),
                    this.address,
                    text.spec_bytes(),
                ) == Err::<(Map<int, u8>, Seq<u8>), Error>(e),
            },
    {
        let size = self.buffer_size();
        let bytes = text.as_bytes();
        let mut data: Vec<u8> = Vec::new();
        if size > 0 {
            let room: usize = (size - 1) as usize;
            let kept: usize = if bytes.len() <= room {
                bytes.len()
            } else {
                room
            };
            data = copy_range(bytes, 0, kept);
            data.push(0u8);
            assert(bytes@.subrange(0, bytes@.len() as int) =~= bytes@);
        }
        assert(data@ =~= stored_text(text.spec_bytes(), size));
        match memory.write_bytes(self.string_top().address, data.as_slice()) {
            Err(e) => Err(e),
            Ok(()) => self.update(memory, &this),
        }
    }
}

impl<const L: usize> FixedSafeString<L> {
    /// What `ctor` gives: the bytes afterwards and the string as it then
    /// lies at `this`.
    #[verifier::opaque]
    pub open spec fn ctor_spec(bytes: Map<int, u8>, this: u64) -> Result<
        (Map<int, u8>, Seq<u8>),
        Error,
    > {
        match refreshed::<Pointer, FixedSafeString<L>>(
            bytes,
            wrap(this + STRING_TOP),
            wrap(this + STRING_BUFFER),
            this,
        ) {
            Err(e) => Err(e),
            Ok((b1, _)) => match refreshed::<i32, FixedSafeString<L>>(
                b1,
                wrap(this + STRING_BUFFER_SIZE),
                Self::capacity() as i32,
                this,
            ) {
                Err(e) => Err(e),
                Ok((b2, s2)) => match Self::terminate_spec(s2, b2, this) {
                    Err(e) => Err(e),
                    Ok((b3, s3)) => refreshed::<i8, FixedSafeString<L>>(
                        b3,
                        Self::top_of(s3),
                        0,
                        this,
                    ),
                },
            },
        }
    }
}

impl<const L: usize> Constructor for FixedSafeString<L> {
    /// Builds an empty string at `this`: points it at its own buffer, states
    /// its capacity, ends it, and empties it. The pointer to the table of
    /// virtual functions is left as it is.
    fn ctor(&mut self, memory: &mut Memory, this: Pointer<Self>) -> (r: Result<(), Error>)
        ensures
            match r {
                Ok(()) => Self::ctor_spec(old(memory).bytes(), this.address) == Ok::<
                    (Map<int, u8>, Seq<u8>),
                    Error,
                >((final(memory).bytes(), final(self)@)),
                Err(e) => Self::ctor_spec(old(memory).bytes(), this.address) == Err::<
                    (Map<int, u8>, Seq<u8>),
                    Error,
                >(e),
            },
    {
        reveal(FixedSafeString::ctor_spec);
        let capacity: i32 = if L <= 0x7fff_ffff {
            L as i32
        } else {
            0x7fff_ffff
        };
        let buffer: Pointer = Pointer::new(shifted(this.address, STRING_BUFFER as i64));
        if let Err(e) = write_refresh(
            memory,
            shifted(this.address, STRING_TOP as i64),
            buffer,
            self,
            &this,
        ) {
            return Err(e);
        }
        if let Err(e) = write_refresh(
            memory,
            shifted(this.address, STRING_BUFFER_SIZE as i64),
            capacity,
            self,
            &this,
        ) {
            return Err(e);
        }
        if let Err(e) = self.terminate(memory, this) {
            return Err(e);
        }
        let top = self.string_top().address;
        write_refresh(memory, top, 0i8, self, &this)
    }
}

/// The string at `top` in memory is `text`: its characters, none of them
/// zero, and then the zero byte that ends it.
pub open spec fn holds_text(bytes: Map<int, u8>, top: u64, text: Seq<u8>) -> bool {
    &&& text.len() <= COMPARE_LIMIT
    &&& forall|i: int|
        0 <= i < text.len() ==> text[i] != 0 && #[trigger] load::<i8>(bytes, wrap(top + i)) == Ok::<
            i8,
            Error,
        >(text[i] as i8)
    &&& load::<i8>(bytes, wrap(top + text.len())) == Ok::<i8, Error>(0)
}

/// A byte read with its sign is zero where the byte is zero, and two bytes
/// read with their sign are equal where the bytes are.
pub proof fn lemma_signed_byte(a: u8, b: u8)
    ensures
        (a as i8 == 0) == (a == 0),
        (a as i8 == b as i8) == (a == b),
{
    assert((a as i8 == 0) == (a == 0)) by (bit_vector);
    assert((a as i8 == b as i8) == (a == b)) by (bit_vector);
}

/// The comparison of the string in memory with a text says that they are
/// equal where the string is that text, and that they are not where the
/// string is another text.
pub proof fn lemma_compare_text(bytes: Map<int, u8>, top: u64, stored: Seq<u8>, text: Seq<u8>)
    requires
        holds_text(bytes, top, stored),
        forall|i: int| 0 <= i < text.len() ==> text[i] != 0,
    ensures
        compare_text(bytes, top, text, 0) == Ok::<bool, Error>(text == stored),
{
    lemma_compare_from(bytes, top, stored, text, 0);
    if text != stored {
        assert(text.subrange(0, 0) =~= stored.subrange(0, 0));
    }
}

/// The comparison from character `i` on, where the string and the text
/// agree before it.
proof fn lemma_compare_from(bytes: Map<int, u8>, top: u64, stored: Seq<u8>, text: Seq<u8>, i: int)
    requires
        holds_text(bytes, top, stored),
        forall|k: int| 0 <= k < text.len() ==> text[k] != 0,
        0 <= i <= stored.len(),
        i <= text.len(),
        text.subrange(0, i) == stored.subrange(0, i),
    ensures
        compare_text(bytes, top, text, i) == Ok::<bool, Error>(text == stored),
    decreases stored.len() - i,
{
    lemma_signed_byte(text_byte(text, i), text_byte(stored, i));
    lemma_signed_byte(text_byte(stored, i), 0);
    if i < stored.len() {
        assert(load::<i8>(bytes, wrap(top + i)) == Ok::<i8, Error>(stored[i] as i8));
        if i < text.len() && text[i] == stored[i] {
            assert(text.subrange(0, i + 1) =~= text.subrange(0, i).push(text[i]));
            assert(stored.subrange(0, i + 1) =~= stored.subrange(0, i).push(stored[i]));
            lemma_compare_from(bytes, top, stored, text, i + 1);
        } else {
            assert(text != stored) by {
                if text == stored {
                    assert(text[i] == stored[i]);
                }
            }
        }
    } else {
        if text.len() == stored.len() {
            assert(text =~= text.subrange(0, i));
            assert(stored =~= stored.subrange(0, i));
        }
    }
}

impl<const L: usize> FixedSafeString<L> {
    /// The fields of a string that lies in memory are what lies in memory
    /// at their places.
    pub proof fn lemma_string_fields(bytes: Map<int, u8>, this: u64)
        requires
            in_window(this as int, Self::layout_size() as int),
            covered(bytes, this as int, Self::layout_size() as int),
        ensures
            load::<FixedSafeString<L>>(bytes, this) matches Ok(image) && {
                &&& load::<Pointer>(bytes, (this + STRING_VPTR) as u64) == Ok::<u64, Error>(
                    Self::vptr_of(image),
                )
                &&& load::<Pointer>(bytes, (this + STRING_TOP) as u64) == Ok::<u64, Error>(
                    Self::top_of(image),
                )
                &&& load::<i32>(bytes, (this + STRING_BUFFER_SIZE) as u64) == Ok::<i32, Error>(
                    Self::buffer_size_of(image),
                )
            },
    {
        lemma_field_loaded::<Pointer>(bytes, this, Self::layout_size(), STRING_VPTR as int);
        lemma_field_loaded::<Pointer>(bytes, this, Self::layout_size(), STRING_TOP as int);
        lemma_field_loaded::<i32>(bytes, this, Self::layout_size(), STRING_BUFFER_SIZE as int);
    }

    /// Building a string where it can lie, in bytes that are stored, leaves
    /// an empty string that points at its own buffer, states its capacity,
    /// and ends; the pointer to its virtual functions, and every byte
    /// outside the string, stay as they are.
    #[verifier::rlimit(50)]
    pub proof fn lemma_ctor(bytes: Map<int, u8>, this: u64)
        requires
            1 <= L <= i32::MAX,
            in_window(this as int, Self::layout_size() as int),
            covered(bytes, this as int, Self::layout_size() as int),
        ensures
            Self::ctor_spec(bytes, this) matches Ok((after, fresh)) && {
                &&& load::<FixedSafeString<L>>(after, this) == Ok::<Seq<u8>, Error>(fresh)
                &&& Self::top_of(fresh) == this + STRING_BUFFER
                &&& Self::buffer_size_of(fresh) == L
                &&& holds_text(after, (this + STRING_BUFFER) as u64, Seq::<u8>::empty())
                &&& load::<i8>(after, (this + STRING_BUFFER + L - 1) as u64) == Ok::<i8, Error>(0)
                &&& same_bytes(bytes, after, this as int, 8)
                &&& forall|other: int, len: int|
                    other + len <= this || this + Self::layout_size() <= other ==> #[trigger] same_bytes(
                        bytes,
                        after,
                        other,
                        len,
                    )
            },
    {
        reveal(FixedSafeString::ctor_spec);
        let size = Self::layout_size() as int;
        let top = (this + STRING_BUFFER) as u64;
        let last = (this + STRING_BUFFER + L - 1) as u64;
        Pointer::<u8>::lemma_layout(top);
        i32::lemma_layout(L as i32);
        i8::lemma_layout(0);
        let d1 = Pointer::<u8>::encode(top);
        let d2 = i32::encode(L as i32);
        let zero = i8::encode(0);
        let b1 = written(bytes, this + STRING_TOP, d1);
        let b2 = written(b1, this + STRING_BUFFER_SIZE, d2);
        let b3 = written(b2, last as int, zero);
        let b4 = written(b3, top as int, zero);
        lemma_written_covered(bytes, this + STRING_TOP, d1, this as int, size);
        lemma_written_covered(b1, this + STRING_BUFFER_SIZE, d2, this as int, size);
        lemma_written_covered(b2, last as int, zero, this as int, size);
        lemma_written_covered(b3, top as int, zero, this as int, size);
        Self::lemma_string_fields(b1, this);
        Self::lemma_string_fields(b2, this);
        Self::lemma_string_fields(b3, this);
        Self::lemma_string_fields(b4, this);
        // The pointer to the buffer, once stored, stays.
        lemma_read_after_write::<Pointer>(bytes, (this + STRING_TOP) as u64, top);
        lemma_load_outside::<Pointer>(
            b1,
            this + STRING_BUFFER_SIZE,
            d2,
            (this + STRING_TOP) as u64,
        );
        lemma_load_outside::<Pointer>(b2, last as int, zero, (this + STRING_TOP) as u64);
        lemma_load_outside::<Pointer>(b3, top as int, zero, (this + STRING_TOP) as u64);
        // So does the capacity.
        lemma_read_after_write::<i32>(b1, (this + STRING_BUFFER_SIZE) as u64, L as i32);
        lemma_load_outside::<i32>(b2, last as int, zero, (this + STRING_BUFFER_SIZE) as u64);
        lemma_load_outside::<i32>(b3, top as int, zero, (this + STRING_BUFFER_SIZE) as u64);
        // The two zero bytes.
        lemma_read_after_write::<i8>(b2, last, 0i8);
        lemma_read_after_write::<i8>(b3, top, 0i8);
        if last != top {
            lemma_load_outside::<i8>(b3, top as int, zero, last);
        }
        assert(Self::ctor_spec(bytes, this) == Ok::<(Map<int, u8>, Seq<u8>), Error>(
            (b4, load::<FixedSafeString<L>>(b4, this)->Ok_0),
        ));
        // What lies outside the stores.
        assert forall|other: int, len: int|
            other + len <= this + 8 || this + size <= other implies #[trigger] same_bytes(
            bytes,
            b4,
            other,
            len,
        ) by {
            lemma_written_same_bytes(bytes, this + STRING_TOP, d1, other, len);
            lemma_written_same_bytes(b1, this + STRING_BUFFER_SIZE, d2, other, len);
            lemma_written_same_bytes(b2, last as int, zero, other, len);
            lemma_written_same_bytes(b3, top as int, zero, other, len);
            lemma_same_bytes_chain(bytes, b1, b2, other, len);
            lemma_same_bytes_chain(bytes, b2, b3, other, len);
            lemma_same_bytes_chain(bytes, b3, b4, other, len);
        }
        assert(same_bytes(bytes, b4, this as int, 8));
    }
}

impl<const L: usize> FixedSafeString<L> {
    /// The part of `text` that a string of this capacity keeps: all of it
    /// where it leaves room for the zero byte that ends it.
    pub open spec fn kept_text(text: Seq<u8>) -> Seq<u8> {
        if text.len() < L {
            text
        } else {
            text.subrange(0, L - 1)
        }
    }

    /// Making `text` the text of a string that is stored where it can lie,
    /// points at its own buffer and states its capacity, succeeds; the
    /// string then holds the part of the text that it keeps, where that
    /// holds no zero byte, and no byte changes but those of that part and
    /// the one that ends it.
    pub proof fn lemma_assign(image: Seq<u8>, bytes: Map<int, u8>, this: u64, text: Seq<u8>)
        requires
            1 <= L <= COMPARE_LIMIT,
            in_window(this as int, Self::layout_size() as int),
            covered(bytes, this as int, Self::layout_size() as int),
            Self::top_of(image) == this + STRING_BUFFER,
            Self::buffer_size_of(image) == L,
        ensures
            Self::assign_spec(image, bytes, this, text) matches Ok((after, fresh)) && {
                &&& load::<FixedSafeString<L>>(after, this) == Ok::<Seq<u8>, Error>(fresh)
                &&& (forall|i: int|
                    0 <= i < Self::kept_text(text).len() ==> Self::kept_text(text)[i] != 0)
                    ==> holds_text(after, (this + STRING_BUFFER) as u64, Self::kept_text(text))
                &&& same_but(
                    bytes,
                    after,
                    this + STRING_BUFFER,
                    (Self::kept_text(text).len() + 1) as int,
                )
            },
    {
        let top = (this + STRING_BUFFER) as u64;
        let kept = Self::kept_text(text);
        let data = kept.push(0u8);
        let size = Self::layout_size() as int;
        assert(data =~= stored_text(text, L as i32));
        assert(top + data.len() <= this + size);
        let after = written(bytes, top as int, data);
        lemma_written_covered(bytes, top as int, data, this as int, size);
        assert(covered(bytes, top as int, data.len() as int));
        lemma_written_same_but(bytes, top as int, data);
        assert forall|i: int| 0 <= i <= kept.len() implies #[trigger] load::<i8>(
            after,
            wrap(top + i),
        ) == Ok::<i8, Error>(data[i] as i8) by {
            assert(after.contains_key(top + i));
            assert(covered(after, top + i, 1));
            assert(bytes_at(after, top + i, 1)[0] == data[i]);
        }
        assert(data[kept.len() as int] as i8 == 0);
    }
}

} // verus!
