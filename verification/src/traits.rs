//! How a value lies in captured memory: its size, its byte image, and the
//! two capabilities that the game's structures share.
use vstd::bytes::*;
use vstd::prelude::*;

use crate::error::Error;
use crate::mem::{Memory, Pointer};

verus! {

/// A value with a fixed native layout, which can be refreshed from memory.
///
/// The view of the value is what the layout stands for; [`Self::encode`] and
/// [`Self::decode`] take a view to its byte image and back.
pub trait Updatable: Sized + View {
    /// The number of bytes of the native layout.
    spec fn layout_size() -> usize;

    /// The value that a byte image of the native layout stands for.
    spec fn decode(bytes: Seq<u8>) -> Self::V;

    /// The byte image of a value in the native layout.
    spec fn encode(value: Self::V) -> Seq<u8>;

    /// Whether the native layout can hold the value.
    spec fn representable(value: Self::V) -> bool;

    /// An image has the layout's size, and decoding it gives the value back.
    proof fn lemma_layout(value: Self::V)
        requires
            Self::representable(value),
        ensures
            Self::encode(value).len() == Self::layout_size(),
            Self::decode(Self::encode(value)) == value,
    ;

    /// The number of bytes of the native layout.
    fn size() -> (n: usize)
        ensures
            n == Self::layout_size(),
    ;

    /// The value that `bytes` stand for.
    fn from_bytes(bytes: &[u8]) -> (value: Self)
        requires
            bytes@.len() == Self::layout_size(),
        ensures
            value@ == Self::decode(bytes@),
            Self::representable(value@),
    ;

    /// The byte image of the value.
    fn to_bytes(&self) -> (bytes: Vec<u8>)
        ensures
            Self::representable(self@),
            bytes@ == Self::encode(self@),
            bytes@.len() == Self::layout_size(),
    ;

    /// Reads the value again from where it lies in memory, at `this`.
    ///
    /// Fails, and leaves the value as it is, where memory cannot be read there.
    fn update(&mut self, memory: &Memory, this: &Pointer<Self>) -> (r: Result<(), Error>)
        ensures
            match memory.read_spec(this.address, Self::layout_size()) {
                Ok(bytes) => r is Ok && final(self)@ == Self::decode(bytes),
                Err(e) => r == Err::<(), Error>(e) && *final(self) == *old(self),
            },
    {
        match memory.read_bytes(this.address, Self::size()) {
            Ok(bytes) => {
                *self = Self::from_bytes(bytes.as_slice());
                Ok(())
            },
            Err(e) => Err(e),
        }
    }
}

/// A structure that the game builds in place.
pub trait Constructor: Updatable {
    /// Builds the structure at `this` in memory and leaves `self` equal to
    /// what was built.
    fn ctor(&mut self, memory: &mut Memory, this: Pointer<Self>) -> (r: Result<(), Error>)
        ensures
            final(memory).wf(),
            r is Ok ==> (final(memory).read_spec(this.address, Self::layout_size()) matches Ok(
                bytes,
            ) && final(self)@ == Self::decode(bytes)),
    ;
}

impl Updatable for u8 {
    open spec fn layout_size() -> usize {
        1
    }

    open spec fn decode(bytes: Seq<u8>) -> u8 {
        bytes[0]
    }

    open spec fn encode(value: u8) -> Seq<u8> {
        seq![value]
    }

    open spec fn representable(value: u8) -> bool {
        true
    }

    proof fn lemma_layout(value: u8) {
    }

    fn size() -> (n: usize) {
        1
    }

    fn from_bytes(bytes: &[u8]) -> (value: u8) {
        let value = bytes[0];
        assert(Self::representable(value));
        value
    }

    fn to_bytes(&self) -> (bytes: Vec<u8>) {
        let mut bytes = Vec::new();
        bytes.push(*self);
        assert(bytes@ =~= seq![*self]);
        bytes
    }
}

impl Updatable for i8 {
    open spec fn layout_size() -> usize {
        1
    }

    open spec fn decode(bytes: Seq<u8>) -> i8 {
        bytes[0] as i8
    }

    open spec fn encode(value: i8) -> Seq<u8> {
        seq![value as u8]
    }

    open spec fn representable(value: i8) -> bool {
        true
    }

    proof fn lemma_layout(value: i8) {
        assert((value as u8) as i8 == value) by (bit_vector);
    }

    fn size() -> (n: usize) {
        1
    }

    fn from_bytes(bytes: &[u8]) -> (value: i8) {
        let value =
            #[verifier::truncate]
            (bytes[0] as i8);
        assert(Self::representable(value));
        value
    }

    fn to_bytes(&self) -> (bytes: Vec<u8>) {
        let mut bytes = Vec::new();
        bytes.push(
            #[verifier::truncate]
            (*self as u8),
        );
        assert(bytes@ =~= seq![*self as u8]);
        bytes
    }
}

impl Updatable for bool {
    open spec fn layout_size() -> usize {
        1
    }

    open spec fn decode(bytes: Seq<u8>) -> bool {
        bytes[0] != 0
    }

    open spec fn encode(value: bool) -> Seq<u8> {
        seq![if value { 1u8 } else { 0u8 }]
    }

    open spec fn representable(value: bool) -> bool {
        true
    }

    proof fn lemma_layout(value: bool) {
    }

    fn size() -> (n: usize) {
        1
    }

    fn from_bytes(bytes: &[u8]) -> (value: bool) {
        let value = bytes[0] != 0;
        assert(Self::representable(value));
        value
    }

    fn to_bytes(&self) -> (bytes: Vec<u8>) {
        let mut bytes = Vec::new();
        bytes.push(if *self { 1u8 } else { 0u8 });
        assert(bytes@ =~= seq![if *self { 1u8 } else { 0u8 }]);
        bytes
    }
}

impl Updatable for u32 {
    open spec fn layout_size() -> usize {
        4
    }

    open spec fn decode(bytes: Seq<u8>) -> u32 {
        spec_u32_from_le_bytes(bytes)
    }

    open spec fn encode(value: u32) -> Seq<u8> {
        spec_u32_to_le_bytes(value)
    }

    open spec fn representable(value: u32) -> bool {
        true
    }

    proof fn lemma_layout(value: u32) {
        lemma_auto_spec_u32_to_from_le_bytes();
        assert(spec_u32_to_le_bytes(value).len() == 4);
    }

    fn size() -> (n: usize) {
        4
    }

    fn from_bytes(bytes: &[u8]) -> (value: u32) {
        let value = u32_from_le_bytes(bytes);
        assert(Self::representable(value));
        value
    }

    fn to_bytes(&self) -> (bytes: Vec<u8>) {
        u32_to_le_bytes(*self)
    }
}

impl Updatable for i32 {
    open spec fn layout_size() -> usize {
        4
    }

    open spec fn decode(bytes: Seq<u8>) -> i32 {
        spec_u32_from_le_bytes(bytes) as i32
    }

    open spec fn encode(value: i32) -> Seq<u8> {
        spec_u32_to_le_bytes(value as u32)
    }

    open spec fn representable(value: i32) -> bool {
        true
    }

    proof fn lemma_layout(value: i32) {
        lemma_auto_spec_u32_to_from_le_bytes();
        assert(spec_u32_to_le_bytes(value as u32).len() == 4);
        assert((value as u32) as i32 == value) by (bit_vector);
    }

    fn size() -> (n: usize) {
        4
    }

    fn from_bytes(bytes: &[u8]) -> (value: i32) {
        let value =
            #[verifier::truncate]
            (u32_from_le_bytes(bytes) as i32);
        assert(Self::representable(value));
        value
    }

    fn to_bytes(&self) -> (bytes: Vec<u8>) {
        u32_to_le_bytes(
            #[verifier::truncate]
            (*self as u32),
        )
    }
}

impl Updatable for u64 {
    open spec fn layout_size() -> usize {
        8
    }

    open spec fn decode(bytes: Seq<u8>) -> u64 {
        spec_u64_from_le_bytes(bytes)
    }

    open spec fn encode(value: u64) -> Seq<u8> {
        spec_u64_to_le_bytes(value)
    }

    open spec fn representable(value: u64) -> bool {
        true
    }

    proof fn lemma_layout(value: u64) {
        lemma_auto_spec_u64_to_from_le_bytes();
    }

    fn size() -> (n: usize) {
        8
    }

    fn from_bytes(bytes: &[u8]) -> (value: u64) {
        let value = u64_from_le_bytes(bytes);
        assert(Self::representable(value));
        value
    }

    fn to_bytes(&self) -> (bytes: Vec<u8>) {
        u64_to_le_bytes(*self)
    }
}

} // verus!
