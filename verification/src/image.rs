//! Byte images of structures: the fields that lie in them at fixed offsets.
use vstd::prelude::*;
use vstd::slice::slice_subrange;

use crate::error::Error;
use crate::mem::{bytes_at, lemma_bytes_at_split, load, read_at};
use crate::traits::Updatable;

verus! {

/// The `T` that lies `offset` bytes into `image`.
pub open spec fn field<T: Updatable>(image: Seq<u8>, offset: int) -> T::V {
    T::decode(image.subrange(offset, offset + T::layout_size()))
}

/// Reads the `T` that lies `offset` bytes into `image`.
pub fn read_field<T: Updatable>(image: &[u8], offset: usize) -> (value: T)
    requires
        offset + T::layout_size() <= image@.len(),
    ensures
        value@ == field::<T>(image@, offset as int),
{
    let len = image.len();
    let size = T::size();
    T::from_bytes(slice_subrange(image, offset, offset + size))
}

/// A field of a structure that lies in memory is the value that lies in
/// memory at the field's place.
pub proof fn lemma_field_loaded<T: Updatable>(
    bytes: Map<int, u8>,
    this: u64,
    len: usize,
    offset: int,
)
    requires
        read_at(bytes, this, len) is Ok,
        0 <= offset,
        offset + T::layout_size() <= len,
    ensures
        load::<T>(bytes, (this + offset) as u64) == Ok::<T::V, Error>(
            field::<T>(read_at(bytes, this, len)->Ok_0, offset),
        ),
{
    let size = T::layout_size() as int;
    lemma_bytes_at_split(bytes, this as int, len as int, offset);
    lemma_bytes_at_split(bytes, this + offset, len - offset, size);
    let image = bytes_at(bytes, this as int, len as int);
    assert(image.subrange(offset, offset + size) =~= image.subrange(offset, len as int).subrange(
        0,
        size,
    ));
}

/// A copy of the bytes of `image` from `from` up to `to`.
pub fn copy_range(image: &[u8], from: usize, to: usize) -> (out: Vec<u8>)
    requires
        from <= to <= image@.len(),
    ensures
        out@ == image@.subrange(from as int, to as int),
{
    let mut out: Vec<u8> = Vec::new();
    let mut i: usize = from;
    while i < to
        invariant
            from <= i <= to <= image@.len(),
            out@ == image@.subrange(from as int, i as int),
        decreases to - i,
    {
        out.push(image[i]);
        i += 1;
    }
    out
}

} // verus!
