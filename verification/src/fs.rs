//! The form in which a snapshot of the manager is kept: the address at
//! which it lay, and its bytes.
use vstd::bytes::*;
use vstd::prelude::*;
use vstd::slice::slice_subrange;

use crate::error::Error;
use crate::image::copy_range;
use crate::pmdm::PauseMenuDataMgr;
use crate::traits::Updatable;

verus! {

/// The number of bytes of the address that a dump begins with.
pub const DUMP_ADDRESS_SIZE: usize = 8;

/// The number of bytes of a dump: the address and the manager.
pub open spec fn dump_size() -> usize {
    (DUMP_ADDRESS_SIZE + PauseMenuDataMgr::layout_size()) as usize
}

/// Takes a dump apart: the address that its first eight bytes hold, low
/// byte first, and the bytes of the manager after them.
///
/// Fails where the dump has not the size of an address and a manager.
pub fn parse_dump(buffer: &[u8]) -> (r: Result<(u64, Vec<u8>), Error>)
    ensures
        match r {
            Ok((address, data)) => {
                &&& buffer@.len() == dump_size()
                &&& address == spec_u64_from_le_bytes(buffer@.subrange(0, 8))
                &&& data@ == buffer@.subrange(8, dump_size() as int)
            },
            Err(e) => {
                &&& buffer@.len() != dump_size()
                &&& e == Error::SizeMismatch { expected: dump_size(), found: buffer@.len() as usize }
            },
        },
{
    let expected = DUMP_ADDRESS_SIZE + PauseMenuDataMgr::size();
    if buffer.len() != expected {
        return Err(Error::SizeMismatch { expected, found: buffer.len() });
    }
    let address = u64_from_le_bytes(slice_subrange(buffer, 0, DUMP_ADDRESS_SIZE));
    let data = copy_range(buffer, DUMP_ADDRESS_SIZE, expected);
    Ok((address, data))
}

} // verus!
