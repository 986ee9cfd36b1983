//! What a sound pouch is, and what the operations of the manager do to one.
use vstd::prelude::*;

use crate::error::Error;
use crate::heads::first_of;
use crate::image::lemma_field_loaded;
use crate::item::{
    ITEM_EFFECT_ID, ITEM_EQUIPPED, ITEM_ITEM_TYPE, ITEM_LIST_NODE, ITEM_NAME, ITEM_VALUE, ItemName,
    NO_EFFECT_BITS, PouchItem,
};
use crate::list::{
    is_list, lemma_header_parts, lemma_is_list_kept, lemma_list_header, linked, LIST_COUNT,
    LIST_OFFSET, OffsetList, ring,
};
use crate::mem::{
    covered, in_window, lemma_load_same, lemma_read_after_write, lemma_same_but_apart,
    lemma_same_bytes_chain,
    lemma_same_bytes_part, lemma_written_covered, lemma_written_same_bytes, load, Pointer,
    same_bytes, wrap, written,
};
use crate::pmdm::{
    LISTS_BUFFER, PauseMenuDataMgr, PMDM_CATEGORY_TO_SORT, PMDM_ITEM_444F0, PMDM_ITEM_LISTS,
    PMDM_LAST_ADDED_ITEM, PMDM_LIST1, PMDM_LIST_HEADS, PMDM_NEWLY_ADDED_ITEM, PouchOrder,
};
use crate::sort::stays_before;
use crate::types::{ItemUse, PouchCategory, PouchItemType};
use crate::script::{
    applied, lemma_applied_outside, lemma_applied_same, lemma_applied_stored, lemma_run_ok,
    refreshed, stores_apart, stores_in_window,
};
use crate::string::{STRING_BUFFER, STRING_BUFFER_SIZE, STRING_TOP};
use crate::traits::Updatable;

verus! {

/// The number of bytes of the manager.
pub open spec fn manager_size() -> int {
    0x44808
}

/// The number of bytes of an item.
pub open spec fn item_size() -> int {
    664
}

/// The address of the slot of index `slot` of the manager at `this`.
pub open spec fn item_at(this: u64, slot: int) -> u64 {
    (this + PMDM_ITEM_LISTS + LISTS_BUFFER + slot * item_size()) as u64
}

/// The links of the items in the slots of the indices `slots`.
pub open spec fn links_of(this: u64, slots: Seq<int>) -> Seq<u64> {
    Seq::new(slots.len(), |k: int| (item_at(this, slots[k]) + ITEM_LIST_NODE) as u64)
}

/// The name of the item at `item` points at its own buffer and states the
/// capacity that it has.
pub open spec fn name_in_place(bytes: Map<int, u8>, item: u64) -> bool {
    &&& load::<Pointer>(bytes, (item + ITEM_NAME + STRING_TOP) as u64) == Ok::<u64, Error>(
        (item + ITEM_NAME + STRING_BUFFER) as u64,
    )
    &&& load::<i32>(bytes, (item + ITEM_NAME + STRING_BUFFER_SIZE) as u64) == Ok::<i32, Error>(
        64i32,
    )
}

/// The slot at position `k` of `slots` is a slot of the manager, and the
/// name of the item in it is in place.
pub open spec fn sound_item(bytes: Map<int, u8>, this: u64, slots: Seq<int>, k: int) -> bool {
    0 <= slots[k] < 420 && name_in_place(bytes, item_at(this, slots[k]))
}

/// The manager at `this` is stored, and its list of items in use is a
/// well-formed list of the items in the slots of the indices `slots`, in
/// this order, which hold their link eight bytes in and their name in place.
#[verifier::opaque]
pub open spec fn is_pouch(bytes: Map<int, u8>, this: u64, slots: Seq<int>) -> bool {
    &&& in_window(this as int, manager_size())
    &&& covered(bytes, this as int, manager_size())
    &&& is_list(bytes, (this + PMDM_LIST1) as u64, links_of(this, slots))
    &&& load::<i32>(bytes, (this + PMDM_LIST1 + LIST_OFFSET) as u64) == Ok::<i32, Error>(8i32)
    &&& forall|k: int| 0 <= k < slots.len() ==> #[trigger] sound_item(bytes, this, slots, k)
}

/// The link and the header of the name of the item in the slot at position
/// `k` hold the same bytes in both memories.
pub open spec fn item_kept(
    before: Map<int, u8>,
    after: Map<int, u8>,
    this: u64,
    slots: Seq<int>,
    k: int,
) -> bool {
    &&& same_bytes(before, after, item_at(this, slots[k]) + ITEM_LIST_NODE, 16)
    &&& same_bytes(before, after, item_at(this, slots[k]) + ITEM_NAME + STRING_TOP, 12)
}

/// A sound pouch stays sound where the bytes of the header of its list, and
/// of the links and the headers of the names of its items, stay as they
/// are, and the manager stays stored.
pub proof fn lemma_pouch_kept(before: Map<int, u8>, after: Map<int, u8>, this: u64, slots: Seq<int>)
    requires
        is_pouch(before, this, slots),
        covered(after, this as int, manager_size()),
        same_bytes(before, after, this + PMDM_LIST1, 24),
        forall|k: int| 0 <= k < slots.len() ==> #[trigger] item_kept(before, after, this, slots, k),
    ensures
        is_pouch(after, this, slots),
{
    reveal(is_pouch);
    reveal(is_list);
    let list = (this + PMDM_LIST1) as u64;
    let links = links_of(this, slots);
    assert forall|k: int| 0 <= k < links.len() implies same_bytes(
        before,
        after,
        #[trigger] links[k] as int,
        16,
    ) by {
        assert(sound_item(before, this, slots, k));
        assert(item_kept(before, after, this, slots, k));
    }
    lemma_is_list_kept(before, after, list, links);
    lemma_same_bytes_part(before, after, this + PMDM_LIST1, 24, this + PMDM_LIST1 + 20, 4);
    lemma_load_same::<i32>(before, after, (this + PMDM_LIST1 + LIST_OFFSET) as u64);
    assert forall|k: int| 0 <= k < slots.len() implies #[trigger] sound_item(after, this, slots, k) by {
        assert(sound_item(before, this, slots, k));
        assert(item_kept(before, after, this, slots, k));
        let item = item_at(this, slots[k]);
        lemma_same_bytes_part(before, after, item + 48, 12, item + 48, 8);
        lemma_same_bytes_part(before, after, item + 48, 12, item + 56, 4);
        lemma_load_same::<Pointer>(before, after, (item + ITEM_NAME + STRING_TOP) as u64);
        lemma_load_same::<i32>(before, after, (item + ITEM_NAME + STRING_BUFFER_SIZE) as u64);
    }
}

/// The manager of a sound pouch is stored inside the valid window, and its
/// list counts the slots of the pouch.
pub proof fn lemma_pouch_stored(bytes: Map<int, u8>, this: u64, slots: Seq<int>)
    requires
        is_pouch(bytes, this, slots),
    ensures
        in_window(this as int, manager_size()),
        covered(bytes, this as int, manager_size()),
        is_list(bytes, (this + PMDM_LIST1) as u64, links_of(this, slots)),
        load::<i32>(bytes, (this + PMDM_LIST1 + LIST_COUNT) as u64) == Ok::<i32, Error>(
            slots.len() as i32,
        ),
        forall|k: int| 0 <= k < slots.len() ==> 0 <= #[trigger] slots[k] < 420,
{
    reveal(is_pouch);
    reveal(is_list);
    assert forall|k: int| 0 <= k < slots.len() implies 0 <= #[trigger] slots[k] < 420 by {
        assert(sound_item(bytes, this, slots, k));
    }
}

/// The fields of the manager that lies in memory are what lies in memory at
/// their places.
pub proof fn lemma_manager_fields(bytes: Map<int, u8>, this: u64)
    requires
        in_window(this as int, manager_size()),
        covered(bytes, this as int, manager_size()),
    ensures
        load::<PauseMenuDataMgr>(bytes, this) matches Ok(image) && {
            &&& load::<OffsetList<PouchItem>>(bytes, (this + PMDM_LIST1) as u64) == Ok::<
                OffsetList<PouchItem>,
                Error,
            >(PauseMenuDataMgr::list1_of(image))
            &&& load::<Pointer>(bytes, (this + PMDM_LAST_ADDED_ITEM) as u64) == Ok::<u64, Error>(
                PauseMenuDataMgr::last_added_item_of(image),
            )
            &&& load::<Pointer>(bytes, (this + PMDM_ITEM_444F0) as u64) == Ok::<u64, Error>(
                PauseMenuDataMgr::item_444f0_of(image),
            )
        },
{
    let size = PauseMenuDataMgr::layout_size();
    lemma_field_loaded::<OffsetList<PouchItem>>(bytes, this, size, PMDM_LIST1 as int);
    lemma_field_loaded::<Pointer<PouchItem>>(bytes, this, size, PMDM_LAST_ADDED_ITEM as int);
    lemma_field_loaded::<Pointer<PouchItem>>(bytes, this, size, PMDM_ITEM_444F0 as int);
}

/// Making the manager of a sound pouch forget an item that it remembers at
/// `place`, which lies behind the slots, leaves a sound pouch, and changes
/// nothing but what it remembers there.
pub proof fn lemma_forget(bytes: Map<int, u8>, this: u64, slots: Seq<int>, place: int)
    requires
        is_pouch(bytes, this, slots),
        place == PMDM_LAST_ADDED_ITEM || place == PMDM_ITEM_444F0,
    ensures
        refreshed::<Pointer, PauseMenuDataMgr>(bytes, wrap(this + place), 0, this) matches Ok(
            (after, fresh),
        ) && {
            &&& is_pouch(after, this, slots)
            &&& load::<PauseMenuDataMgr>(after, this) == Ok::<Seq<u8>, Error>(fresh)
            &&& load::<Pointer>(after, (this + place) as u64) == Ok::<u64, Error>(0)
            &&& place == PMDM_LAST_ADDED_ITEM ==> load::<Pointer>(
                after,
                (this + PMDM_ITEM_444F0) as u64,
            ) == load::<Pointer>(bytes, (this + PMDM_ITEM_444F0) as u64)
            &&& place == PMDM_ITEM_444F0 ==> load::<Pointer>(
                after,
                (this + PMDM_LAST_ADDED_ITEM) as u64,
            ) == load::<Pointer>(bytes, (this + PMDM_LAST_ADDED_ITEM) as u64)
        },
{
    reveal(is_pouch);
    reveal(is_list);
    let at = (this + place) as u64;
    let data = Pointer::<u8>::encode(0);
    Pointer::<u8>::lemma_layout(0);
    let after = written(bytes, at as int, data);
    lemma_written_covered(bytes, at as int, data, this as int, manager_size());
    lemma_read_after_write::<Pointer>(bytes, at, 0);
    lemma_written_same_bytes(bytes, at as int, data, this + PMDM_LIST1, 24);
    assert forall|k: int| 0 <= k < slots.len() implies #[trigger] item_kept(
        bytes,
        after,
        this,
        slots,
        k,
    ) by {
        assert(sound_item(bytes, this, slots, k));
        lemma_written_same_bytes(bytes, at as int, data, item_at(this, slots[k]) + 8, 16);
        lemma_written_same_bytes(bytes, at as int, data, item_at(this, slots[k]) + 48, 12);
    }
    lemma_pouch_kept(bytes, after, this, slots);
    if place == PMDM_LAST_ADDED_ITEM {
        lemma_written_same_bytes(bytes, at as int, data, this + PMDM_ITEM_444F0, 8);
        lemma_load_same::<Pointer>(bytes, after, (this + PMDM_ITEM_444F0) as u64);
    } else {
        lemma_written_same_bytes(bytes, at as int, data, this + PMDM_LAST_ADDED_ITEM, 8);
        lemma_load_same::<Pointer>(bytes, after, (this + PMDM_LAST_ADDED_ITEM) as u64);
    }
}

/// The links of the slots without one of them are the links without the
/// link of that slot.
proof fn lemma_links_remove(this: u64, slots: Seq<int>, i: int)
    requires
        0 <= i < slots.len(),
    ensures
        links_of(this, slots).remove(i) == links_of(this, slots.remove(i)),
{
    assert(links_of(this, slots).remove(i) =~= links_of(this, slots.remove(i)));
}

/// Where the links of a sound pouch lie: the link at position `k` of its
/// ring, or the sentinel, lies in the header of the list or in a slot.
proof fn lemma_ring_place(bytes: Map<int, u8>, this: u64, slots: Seq<int>, k: int)
    requires
        is_pouch(bytes, this, slots),
    ensures
        ({
            let at = ring((this + PMDM_LIST1) as u64, links_of(this, slots), k);
            at == this + PMDM_LIST1 || (exists|slot: int|
                0 <= slot < 420 && at == #[trigger] item_at(this, slot) + ITEM_LIST_NODE)
        }),
{
    reveal(is_pouch);
    reveal(is_list);
    if 0 <= k < slots.len() {
        assert(sound_item(bytes, this, slots, k));
        assert(links_of(this, slots)[k] == item_at(this, slots[k]) + ITEM_LIST_NODE);
    }
}

/// Erasing the item in the slot at position `i` from the list of a sound
/// pouch, and reading the manager again, leaves a sound pouch without that
/// slot, with one item fewer, and changes nothing of what the manager
/// remembers behind the slots.
#[verifier::rlimit(50)]
pub proof fn lemma_erase_item(image: Seq<u8>, bytes: Map<int, u8>, this: u64, slots: Seq<int>, i: int)
    requires
        is_pouch(bytes, this, slots),
        load::<PauseMenuDataMgr>(bytes, this) == Ok::<Seq<u8>, Error>(image),
        0 <= i < slots.len(),
    ensures
        PauseMenuDataMgr::list1_of(image).erase_spec(
            bytes,
            (this + PMDM_LIST1) as u64,
            item_at(this, slots[i]),
        ) matches Ok((after, _)) && load::<PauseMenuDataMgr>(after, this) matches Ok(fresh) && {
            &&& is_pouch(after, this, slots.remove(i))
            &&& PauseMenuDataMgr::list1_of(fresh).count == slots.len() - 1
            &&& PauseMenuDataMgr::last_added_item_of(fresh)
                == PauseMenuDataMgr::last_added_item_of(image)
            &&& PauseMenuDataMgr::item_444f0_of(fresh) == PauseMenuDataMgr::item_444f0_of(image)
            &&& same_bytes(bytes, after, this + LISTS_BUFFER + PMDM_ITEM_LISTS + 420 * item_size(), 0x610)
        },
{
    reveal(is_pouch);
    reveal(is_list);
    let list = (this + PMDM_LIST1) as u64;
    let links = links_of(this, slots);
    let header = PauseMenuDataMgr::list1_of(image);
    let item = item_at(this, slots[i]);
    let rest = slots.remove(i);
    lemma_manager_fields(bytes, this);
    lemma_header_parts::<PouchItem>(bytes, list);
    assert(sound_item(bytes, this, slots, i));
    assert(header.node_of(item) == links[i]);
    header.lemma_erase(bytes, list, links, i, item);
    let (after, fresh_list) = header.erase_spec(bytes, list, item)->Ok_0;
    lemma_links_remove(this, slots, i);
    lemma_ring_place(bytes, this, slots, i - 1);
    lemma_ring_place(bytes, this, slots, i + 1);
    let p = ring(list, links, i - 1);
    let nx = ring(list, links, i + 1);
    assert(covered(after, this as int, manager_size())) by {
        assert forall|a: int| this <= a < this + manager_size() implies after.contains_key(a) by {
            assert(bytes.contains_key(a));
        }
    }
    lemma_header_parts::<PouchItem>(after, list);
    assert forall|k: int| 0 <= k < rest.len() implies #[trigger] sound_item(after, this, rest, k) by {
        let m = if k < i {
            k
        } else {
            k + 1
        };
        assert(rest[k] == slots[m]);
        assert(sound_item(bytes, this, slots, m));
        let other = item_at(this, slots[m]);
        assert(same_bytes(bytes, after, other + 48, 8));
        assert(same_bytes(bytes, after, other + 56, 4));
        lemma_load_same::<Pointer>(bytes, after, (other + ITEM_NAME + STRING_TOP) as u64);
        lemma_load_same::<i32>(bytes, after, (other + ITEM_NAME + STRING_BUFFER_SIZE) as u64);
    }
    assert(same_bytes(bytes, after, this + LISTS_BUFFER + PMDM_ITEM_LISTS + 420 * item_size(), 0x610));
    lemma_manager_fields(after, this);
    lemma_same_bytes_part(
        bytes,
        after,
        this + LISTS_BUFFER + PMDM_ITEM_LISTS + 420 * item_size(),
        0x610,
        this + PMDM_LAST_ADDED_ITEM,
        8,
    );
    lemma_same_bytes_part(
        bytes,
        after,
        this + LISTS_BUFFER + PMDM_ITEM_LISTS + 420 * item_size(),
        0x610,
        this + PMDM_ITEM_444F0,
        8,
    );
    lemma_load_same::<Pointer>(bytes, after, (this + PMDM_LAST_ADDED_ITEM) as u64);
    lemma_load_same::<Pointer>(bytes, after, (this + PMDM_ITEM_444F0) as u64);
}

impl PauseMenuDataMgr {
    /// Removing an item of a sound pouch leaves a sound pouch without the
    /// item, with one item fewer in its list, and makes the manager forget
    /// the item where it remembered it, and nothing else.
    #[verifier::rlimit(60)]
    pub proof fn lemma_remove(image: Seq<u8>, bytes: Map<int, u8>, this: u64, slots: Seq<int>, i: int)
        requires
            is_pouch(bytes, this, slots),
            load::<PauseMenuDataMgr>(bytes, this) == Ok::<Seq<u8>, Error>(image),
            0 <= i < slots.len(),
        ensures
            Self::remove_spec(image, bytes, this, item_at(this, slots[i])) matches Ok(
                (after, fresh),
            ) && {
                &&& is_pouch(after, this, slots.remove(i))
                &&& load::<PauseMenuDataMgr>(after, this) == Ok::<Seq<u8>, Error>(fresh)
                &&& Self::list1_of(fresh).count == slots.len() - 1
                &&& Self::last_added_item_of(fresh) == if Self::last_added_item_of(image)
                    == item_at(this, slots[i]) {
                    0
                } else {
                    Self::last_added_item_of(image)
                }
                &&& Self::item_444f0_of(fresh) == if Self::item_444f0_of(image) == item_at(
                    this,
                    slots[i],
                ) {
                    0
                } else {
                    Self::item_444f0_of(image)
                }
            },
    {
        reveal(PauseMenuDataMgr::remove_spec);
        let item = item_at(this, slots[i]);
        lemma_pouch_stored(bytes, this, slots);
        lemma_manager_fields(bytes, this);
        let first = if Self::item_444f0_of(image) == item {
            refreshed::<Pointer, PauseMenuDataMgr>(bytes, wrap(this + PMDM_ITEM_444F0), 0, this)
        } else {
            Ok((bytes, image))
        };
        if Self::item_444f0_of(image) == item {
            lemma_forget(bytes, this, slots, PMDM_ITEM_444F0 as int);
        }
        let (b1, s1) = first->Ok_0;
        lemma_pouch_stored(b1, this, slots);
        lemma_manager_fields(b1, this);
        let second = if Self::last_added_item_of(s1) == item {
            refreshed::<Pointer, PauseMenuDataMgr>(b1, wrap(this + PMDM_LAST_ADDED_ITEM), 0, this)
        } else {
            first
        };
        if Self::last_added_item_of(s1) == item {
            lemma_forget(b1, this, slots, PMDM_LAST_ADDED_ITEM as int);
        }
        let (b2, s2) = second->Ok_0;
        lemma_pouch_stored(b2, this, slots);
        lemma_manager_fields(b2, this);
        lemma_erase_item(s2, b2, this, slots, i);
    }
}

/// Offset, in an item whose name is in place, of the last byte of the
/// buffer of its name: the byte that ending the name sets to zero.
pub open spec fn name_end() -> int {
    ITEM_NAME + STRING_BUFFER + 63
}

/// The name of an item that lies in memory is the name that lies in memory
/// at its place, and where it is in place, its fields say so.
proof fn lemma_item_name(bytes: Map<int, u8>, at: u64)
    requires
        in_window(at as int, item_size()),
        covered(bytes, at as int, item_size()),
        name_in_place(bytes, at),
    ensures
        load::<PouchItem>(bytes, at) matches Ok(item) && load::<ItemName>(
            bytes,
            (at + ITEM_NAME) as u64,
        ) == Ok::<Seq<u8>, Error>(PouchItem::name_of(item)) && ItemName::top_of(
            PouchItem::name_of(item),
        ) == at + ITEM_NAME + STRING_BUFFER && ItemName::buffer_size_of(PouchItem::name_of(item))
            == 64,
{
    lemma_field_loaded::<ItemName>(bytes, at, PouchItem::layout_size(), ITEM_NAME as int);
    lemma_field_loaded::<Pointer>(
        bytes,
        (at + ITEM_NAME) as u64,
        ItemName::layout_size(),
        STRING_TOP as int,
    );
    lemma_field_loaded::<i32>(
        bytes,
        (at + ITEM_NAME) as u64,
        ItemName::layout_size(),
        STRING_BUFFER_SIZE as int,
    );
}

/// Asking whether an item whose name is in place has a given name changes
/// at most the last byte of the buffer of its name, which it sets to zero.
pub proof fn lemma_named(bytes: Map<int, u8>, at: u64, text: Seq<u8>)
    requires
        in_window(at as int, item_size()),
        covered(bytes, at as int, item_size()),
        name_in_place(bytes, at),
        PauseMenuDataMgr::named_spec(load::<PouchItem>(bytes, at)->Ok_0, bytes, at, text) is Ok,
    ensures
        ({
            let after = PauseMenuDataMgr::named_spec(
                load::<PouchItem>(bytes, at)->Ok_0,
                bytes,
                at,
                text,
            )->Ok_0.0;
            after == bytes || after == written(bytes, at + name_end(), seq![0u8])
        }),
{
    lemma_item_name(bytes, at);
}

/// The bytes after a store of one byte that is stored already are the same
/// bytes in every place that the store does not touch, and a memory in
/// which the same places are stored.
proof fn lemma_one_byte(bytes: Map<int, u8>, place: int, other: int, len: int)
    requires
        bytes.contains_key(place),
        !(other <= place < other + len),
    ensures
        same_bytes(bytes, written(bytes, place, seq![0u8]), other, len),
        forall|a: int| written(bytes, place, seq![0u8]).contains_key(a) == bytes.contains_key(a),
{
}

/// Looking at the item in the slot at position `k` of a sound pouch leaves
/// a sound pouch with the same count, changes at most the byte that ends
/// the name of that item, and goes on, where it goes on, with the item in
/// the slot after it.
#[verifier::rlimit(50)]
pub proof fn lemma_look(
    image: Seq<u8>,
    bytes: Map<int, u8>,
    this: u64,
    slots: Seq<int>,
    k: int,
    kind: PouchItemType,
    text: Seq<u8>,
    exhausted: bool,
)
    requires
        is_pouch(bytes, this, slots),
        0 <= k < slots.len(),
        PauseMenuDataMgr::look_spec(
            image,
            bytes,
            this,
            item_at(this, slots[k]),
            kind,
            text,
            exhausted,
        ) is Ok,
    ensures
        ({
            let (after, fresh, verdict, next) = PauseMenuDataMgr::look_spec(
                image,
                bytes,
                this,
                item_at(this, slots[k]),
                kind,
                text,
                exhausted,
            )->Ok_0;
            &&& is_pouch(after, this, slots)
            &&& after == bytes || after == written(
                bytes,
                item_at(this, slots[k]) + name_end(),
                seq![0u8],
            )
            &&& verdict is None ==> next == (if k + 1 < slots.len() {
                item_at(this, slots[k + 1])
            } else {
                0
            })
        }),
{
    reveal(is_pouch);
    reveal(is_list);
    reveal(PauseMenuDataMgr::look_spec);
    let at = item_at(this, slots[k]);
    let list = (this + PMDM_LIST1) as u64;
    let links = links_of(this, slots);
    assert(sound_item(bytes, this, slots, k));
    assert(covered(bytes, at as int, item_size()));
    lemma_item_name(bytes, at);
    let item = load::<PouchItem>(bytes, at)->Ok_0;
    let (after, fresh, verdict, next) = PauseMenuDataMgr::look_spec(
        image,
        bytes,
        this,
        at,
        kind,
        text,
        exhausted,
    )->Ok_0;
    if PouchItem::item_type_of(item) == kind && !exhausted {
        lemma_named(bytes, at, text);
        if after != bytes {
            let place = at + name_end();
            assert(bytes.contains_key(place));
            lemma_one_byte(bytes, place, this + PMDM_LIST1, 24);
            assert forall|m: int| 0 <= m < slots.len() implies #[trigger] item_kept(
                bytes,
                after,
                this,
                slots,
                m,
            ) by {
                assert(sound_item(bytes, this, slots, m));
                lemma_one_byte(bytes, place, item_at(this, slots[m]) + 8, 16);
                lemma_one_byte(bytes, place, item_at(this, slots[m]) + 48, 12);
            }
            assert(covered(after, this as int, manager_size())) by {
                assert forall|a: int| this <= a < this + manager_size() implies after.contains_key(
                    a,
                ) by {
                    assert(bytes.contains_key(a));
                }
            }
            lemma_pouch_kept(bytes, after, this, slots);
        }
        if verdict is None {
            lemma_manager_fields(after, this);
            lemma_header_parts::<PouchItem>(after, list);
            assert(linked(after, list, links, k));
            if k + 1 < slots.len() {
                assert(sound_item(after, this, slots, k + 1));
                assert(linked(after, list, links, k + 1));
            }
        }
    }
}

/// Whether the byte at `a` is the byte that ends the name of an item in a
/// slot of the manager at `this`.
pub open spec fn is_name_end(this: u64, a: int) -> bool {
    let d = a - this - PMDM_ITEM_LISTS - LISTS_BUFFER;
    0 <= d < 420 * item_size() && d % item_size() == name_end()
}

/// The second memory holds what the first holds, but for bytes that end the
/// names of items.
pub open spec fn kept_but_name_ends(before: Map<int, u8>, after: Map<int, u8>, this: u64) -> bool {
    &&& forall|a: int| after.contains_key(a) == before.contains_key(a)
    &&& forall|a: int|
        before.contains_key(a) && !is_name_end(this, a) ==> #[trigger] after[a] == before[a]
}

/// The item, if any, in the slot at position `k` of `slots`; null past the
/// last position.
pub open spec fn item_or_null(this: u64, slots: Seq<int>, k: int) -> u64 {
    if 0 <= k < slots.len() {
        item_at(this, slots[k])
    } else {
        0
    }
}

impl PauseMenuDataMgr {
    /// A search in a sound pouch, from the item in the slot at position `k`
    /// on, leaves a sound pouch, changes nothing but bytes that end names,
    /// and finds nothing or an item of the pouch.
    #[verifier::rlimit(50)]
    pub proof fn lemma_find(
        image: Seq<u8>,
        bytes: Map<int, u8>,
        this: u64,
        slots: Seq<int>,
        k: int,
        kind: PouchItemType,
        text: Seq<u8>,
        left: nat,
    )
        requires
            is_pouch(bytes, this, slots),
            0 <= k <= slots.len(),
            Self::find_spec(image, bytes, this, item_or_null(this, slots, k), kind, text, left) is Ok,
        ensures
            ({
                let (after, fresh, found) = Self::find_spec(
                    image,
                    bytes,
                    this,
                    item_or_null(this, slots, k),
                    kind,
                    text,
                    left,
                )->Ok_0;
                &&& is_pouch(after, this, slots)
                &&& kept_but_name_ends(bytes, after, this)
                &&& found == 0 || exists|m: int|
                    k <= m < slots.len() && found == #[trigger] item_or_null(this, slots, m)
            }),
        decreases left,
    {
        let at = item_or_null(this, slots, k);
        if k < slots.len() {
            lemma_look(image, bytes, this, slots, k, kind, text, left == 0);
            lemma_pouch_stored(bytes, this, slots);
            let (b1, s1, verdict, next) = Self::look_spec(
                image,
                bytes,
                this,
                at,
                kind,
                text,
                left == 0,
            )->Ok_0;
            assert(kept_but_name_ends(bytes, b1, this)) by {
                assert(is_name_end(this, at + name_end()));
            }
            if verdict is None {
                Self::lemma_find(s1, b1, this, slots, k + 1, kind, text, (left - 1) as nat);
                let (after, fresh, found) = Self::find_spec(
                    s1,
                    b1,
                    this,
                    next,
                    kind,
                    text,
                    (left - 1) as nat,
                )->Ok_0;
                assert(kept_but_name_ends(bytes, after, this)) by {
                    assert forall|a: int|
                        bytes.contains_key(a) && !is_name_end(this, a) implies #[trigger] after[a]
                        == bytes[a] by {
                        assert(b1[a] == bytes[a]);
                    }
                }
            } else {
                assert(at == item_or_null(this, slots, k));
            }
        } else {
            reveal(PauseMenuDataMgr::look_spec);
        }
    }

    /// A key item that a sound pouch holds and shows already is not picked
    /// up again: where the search for it finds it, nothing is done but the
    /// search, the pouch stays sound, and its list counts what it counted.
    pub proof fn lemma_key_item_present(
        image: Seq<u8>,
        bytes: Map<int, u8>,
        this: u64,
        slots: Seq<int>,
        head: int,
        name: Seq<u8>,
        value: i32,
    )
        requires
            is_pouch(bytes, this, slots),
            load::<PauseMenuDataMgr>(bytes, this) == Ok::<Seq<u8>, Error>(image),
            !crate::pmdm::repeatable(name),
            0 <= head <= slots.len(),
            Self::item_head_spec(image, bytes, PouchCategory::KeyItem) == Ok::<u64, Error>(
                item_or_null(this, slots, head),
            ),
            Self::present_spec(image, bytes, this, PouchItemType::KeyItem, name) matches Ok(
                (_, _, found),
            ) && found != 0,
        ensures
            Self::get_spec(image, bytes, this, name, PouchItemType::KeyItem, value) matches Ok(
                (after, fresh),
            ) && {
                &&& Ok::<(Map<int, u8>, Seq<u8>, u64), Error>(
                    (
                        after,
                        fresh,
                        Self::present_spec(image, bytes, this, PouchItemType::KeyItem, name)->Ok_0.2,
                    ),
                ) == Self::present_spec(image, bytes, this, PouchItemType::KeyItem, name)
                &&& is_pouch(after, this, slots)
                &&& load::<i32>(after, (this + PMDM_LIST1 + LIST_COUNT) as u64) == Ok::<i32, Error>(
                    slots.len() as i32,
                )
                &&& kept_but_name_ends(bytes, after, this)
            },
    {
        reveal(is_pouch);
        reveal(is_list);
        reveal(PauseMenuDataMgr::present_spec);
        Self::lemma_find(
            image,
            bytes,
            this,
            slots,
            head,
            PouchItemType::KeyItem,
            name,
            crate::pmdm::RUN_LIMIT as nat,
        );
    }
}

impl PauseMenuDataMgr {
    /// Clearing the copy of the newest item, whose name is in place,
    /// succeeds where the manager is stored, and changes no byte before the
    /// kind of that copy.
    #[verifier::rlimit(50)]
    pub proof fn lemma_reset_item(image: Seq<u8>, bytes: Map<int, u8>, this: u64)
        requires
            in_window(this as int, manager_size()),
            covered(bytes, this as int, manager_size()),
            name_in_place(bytes, (this + PMDM_NEWLY_ADDED_ITEM) as u64),
        ensures
            Self::reset_item_spec(image, bytes, this) matches Ok((after, fresh)) && {
                &&& load::<PauseMenuDataMgr>(after, this) == Ok::<Seq<u8>, Error>(fresh)
                &&& covered(after, this as int, manager_size())
                &&& same_bytes(bytes, after, this as int, PMDM_NEWLY_ADDED_ITEM + ITEM_ITEM_TYPE)
            },
    {
        reveal(PauseMenuDataMgr::reset_item_spec);
        let newly = (this + PMDM_NEWLY_ADDED_ITEM) as u64;
        let kept = PMDM_NEWLY_ADDED_ITEM + ITEM_ITEM_TYPE;
        let head = Self::reset_head(this);
        let tail = Self::reset_tail(this);
        PouchItemType::lemma_layout(PouchItemType::Invalid);
        ItemUse::lemma_layout(ItemUse::Invalid);
        i32::lemma_layout(0);
        bool::lemma_layout(false);
        u32::lemma_layout(NO_EFFECT_BITS);
        u32::lemma_layout(0);
        assert forall|k: int| 0 <= k < head.len() implies newly + ITEM_ITEM_TYPE <= (
        #[trigger] head[k]).0 && head[k].0 + head[k].1.len() <= newly + ITEM_NAME by {}
        assert(stores_in_window(head));
        lemma_run_ok::<PauseMenuDataMgr>(bytes, image, this, head);
        let b1 = applied(bytes, head);
        let s1 = load::<PauseMenuDataMgr>(b1, this)->Ok_0;
        assert forall|k: int| 0 <= k < head.len() implies covered(
            bytes,
            (#[trigger] head[k]).0 as int,
            head[k].1.len() as int,
        ) by {
            assert(newly + ITEM_ITEM_TYPE <= head[k].0 && head[k].0 + head[k].1.len() <= newly
                + ITEM_NAME);
        }
        assert(stores_apart(head, 0, this as int, kept)) by {
            assert forall|k: int| 0 <= k < head.len() implies this + kept <= (#[trigger] head[k]).0
                || head[k].0 + head[k].1.len() <= this by {
                assert(newly + ITEM_ITEM_TYPE <= head[k].0);
            }
        }
        lemma_applied_same(bytes, head, this as int, kept);
        assert(stores_apart(head, 0, newly + ITEM_NAME + STRING_TOP, 8)) by {
            assert forall|k: int| 0 <= k < head.len() implies newly + 56 <= (#[trigger] head[k]).0
                || head[k].0 + head[k].1.len() <= newly + 48 by {
                assert(head[k].0 + head[k].1.len() <= newly + ITEM_NAME);
            }
        }
        lemma_applied_outside::<Pointer>(bytes, head, (newly + ITEM_NAME + STRING_TOP) as u64);
        // The name of the copy is in the manager as it was read.
        lemma_field_loaded::<PouchItem>(
            b1,
            this,
            PauseMenuDataMgr::layout_size(),
            PMDM_NEWLY_ADDED_ITEM as int,
        );
        lemma_field_loaded::<ItemName>(b1, newly, PouchItem::layout_size(), ITEM_NAME as int);
        lemma_field_loaded::<Pointer>(
            b1,
            (newly + ITEM_NAME) as u64,
            ItemName::layout_size(),
            STRING_TOP as int,
        );
        let top = (newly + ITEM_NAME + STRING_BUFFER) as u64;
        assert(ItemName::top_of(PouchItem::name_of(Self::newly_added_item_of(s1))) == top);
        i8::lemma_layout(0);
        let zero = i8::encode(0);
        let b2 = written(b1, top as int, zero);
        lemma_written_covered(b1, top as int, zero, this as int, manager_size());
        lemma_written_same_bytes(b1, top as int, zero, this as int, kept);
        assert forall|k: int| 0 <= k < tail.len() implies newly + ITEM_EFFECT_ID <= (
        #[trigger] tail[k]).0 && tail[k].0 + tail[k].1.len() <= newly + item_size() by {}
        assert(stores_in_window(tail));
        lemma_run_ok::<PauseMenuDataMgr>(b2, s1, this, tail);
        let b3 = applied(b2, tail);
        assert forall|k: int| 0 <= k < tail.len() implies covered(
            b2,
            (#[trigger] tail[k]).0 as int,
            tail[k].1.len() as int,
        ) by {
            assert(newly + ITEM_EFFECT_ID <= tail[k].0 && tail[k].0 + tail[k].1.len() <= newly
                + item_size());
        }
        assert(stores_apart(tail, 0, this as int, kept)) by {
            assert forall|k: int| 0 <= k < tail.len() implies this + kept <= (#[trigger] tail[k]).0
                || tail[k].0 + tail[k].1.len() <= this by {
                assert(newly + ITEM_EFFECT_ID <= tail[k].0);
            }
        }
        lemma_applied_same(b2, tail, this as int, kept);
        lemma_same_bytes_chain(bytes, b1, b2, this as int, kept);
        lemma_same_bytes_chain(bytes, b2, b3, this as int, kept);
    }
}

/// A place in a slot of the manager, other than the end of the name in the
/// slot, is not the end of a name.
proof fn lemma_not_name_end(this: u64, slot: int, offset: int)
    requires
        in_window(this as int, manager_size()),
        0 <= slot < 420,
        0 <= offset < item_size(),
        offset != name_end(),
    ensures
        !is_name_end(this, item_at(this, slot) + offset),
        is_name_end(this, item_at(this, slot) + name_end()),
{
    assert((slot * 664 + offset) % 664 == offset) by (nonlinear_arith)
        requires
            0 <= offset < 664,
    ;
    assert((slot * 664 + 123) % 664 == 123) by (nonlinear_arith);
}

/// Memories of which the second holds what the first holds, but for bytes
/// that end names, hold the same bytes in the places of a slot before the
/// buffer of its name, and in every place behind the slots.
proof fn lemma_kept_places(
    before: Map<int, u8>,
    after: Map<int, u8>,
    this: u64,
    slot: int,
    offset: int,
    len: int,
)
    requires
        kept_but_name_ends(before, after, this),
        in_window(this as int, manager_size()),
        0 <= slot < 420 && 0 <= offset && offset + len <= ITEM_NAME + STRING_BUFFER || slot == 420
            && 0 <= offset,
    ensures
        same_bytes(before, after, item_at(this, slot) + offset, len),
{
    assert forall|a: int|
        #![trigger after.contains_key(a)]
        #![trigger before.contains_key(a)]
        item_at(this, slot) + offset <= a < item_at(this, slot) + offset + len implies after.contains_key(
        a,
    ) == before.contains_key(a) && (before.contains_key(a) ==> after[a] == before[a]) by {
        if slot < 420 {
            lemma_not_name_end(this, slot, a - item_at(this, slot));
        }
    }
}

impl PauseMenuDataMgr {
    /// Making an item of a sound pouch new again leaves its value zero and
    /// the item not equipped, makes it the item that was added last unless
    /// its value was zero or less, and leaves a sound pouch.
    #[verifier::rlimit(50)]
    pub proof fn lemma_respawn(image: Seq<u8>, bytes: Map<int, u8>, this: u64, slots: Seq<int>, m: int)
        requires
            is_pouch(bytes, this, slots),
            0 <= m < slots.len(),
            name_in_place(bytes, (this + PMDM_NEWLY_ADDED_ITEM) as u64),
        ensures
            load::<i32>(bytes, (item_at(this, slots[m]) + ITEM_VALUE) as u64) is Ok,
            Self::respawn_spec(image, bytes, this, item_at(this, slots[m])) matches Ok(
                (after, fresh),
            ) && {
                &&& is_pouch(after, this, slots)
                &&& load::<PauseMenuDataMgr>(after, this) == Ok::<Seq<u8>, Error>(fresh)
                &&& load::<i32>(after, (item_at(this, slots[m]) + ITEM_VALUE) as u64) == Ok::<
                    i32,
                    Error,
                >(0)
                &&& load::<bool>(after, (item_at(this, slots[m]) + ITEM_EQUIPPED) as u64) == Ok::<
                    bool,
                    Error,
                >(false)
                &&& Self::last_added_item_of(fresh) == if load::<i32>(
                    bytes,
                    (item_at(this, slots[m]) + ITEM_VALUE) as u64,
                )->Ok_0 > 0 {
                    item_at(this, slots[m])
                } else {
                    0
                }
            },
    {
        reveal(PauseMenuDataMgr::respawn_spec);
        lemma_pouch_stored(bytes, this, slots);
        let item = item_at(this, slots[m]);
        let newly = (this + PMDM_NEWLY_ADDED_ITEM) as u64;
        let last = (this + PMDM_LAST_ADDED_ITEM) as u64;
        let kept = PMDM_NEWLY_ADDED_ITEM + ITEM_ITEM_TYPE;
        assert(covered(bytes, item + ITEM_VALUE, 4));
        let before = load::<i32>(bytes, (item + ITEM_VALUE) as u64)->Ok_0;
        let newest: u64 = if before > 0 {
            item
        } else {
            0
        };
        let script = Self::respawn_script(this, item, before);
        i32::lemma_layout(0);
        bool::lemma_layout(false);
        Pointer::<u8>::lemma_layout(newest);
        assert forall|k: int| 0 <= k < script.len() implies this <= (#[trigger] script[k]).0
            && script[k].0 + script[k].1.len() <= this + manager_size() by {}
        assert(stores_in_window(script));
        assert forall|k: int| 0 <= k < script.len() implies covered(
            bytes,
            (#[trigger] script[k]).0 as int,
            script[k].1.len() as int,
        ) by {
            assert(this <= script[k].0 && script[k].0 + script[k].1.len() <= this
                + manager_size());
        }
        lemma_run_ok::<PauseMenuDataMgr>(bytes, image, this, script);
        let b1 = applied(bytes, script);
        let s1 = load::<PauseMenuDataMgr>(b1, this)->Ok_0;
        // What the stores leave.
        assert(stores_apart(script, 1, item + ITEM_VALUE, 4));
        lemma_applied_stored::<i32>(bytes, script, 0, (item + ITEM_VALUE) as u64, 0i32);
        assert(stores_apart(script, 2, item + ITEM_EQUIPPED, 1));
        lemma_applied_stored::<bool>(bytes, script, 1, (item + ITEM_EQUIPPED) as u64, false);
        assert(stores_apart(script, 3, last as int, 8));
        lemma_applied_stored::<Pointer>(bytes, script, 2, last, newest);
        // What they leave as it was.
        assert(stores_apart(script, 0, newly + ITEM_NAME + STRING_TOP, 12));
        lemma_applied_same(bytes, script, newly + ITEM_NAME + STRING_TOP, 12);
        lemma_same_bytes_part(bytes, b1, newly + 48, 12, newly + 48, 8);
        lemma_same_bytes_part(bytes, b1, newly + 48, 12, newly + 56, 4);
        lemma_load_same::<Pointer>(bytes, b1, (newly + ITEM_NAME + STRING_TOP) as u64);
        lemma_load_same::<i32>(bytes, b1, (newly + ITEM_NAME + STRING_BUFFER_SIZE) as u64);
        assert(stores_apart(script, 0, this + PMDM_LIST1, 24));
        lemma_applied_same(bytes, script, this + PMDM_LIST1, 24);
        Self::lemma_reset_item(s1, b1, this);
        let (b2, s2) = Self::reset_item_spec(s1, b1, this)->Ok_0;
        lemma_same_bytes_part(b1, b2, this as int, kept, this + PMDM_LIST1, 24);
        lemma_same_bytes_chain(bytes, b1, b2, this + PMDM_LIST1, 24);
        assert forall|k: int| 0 <= k < slots.len() implies #[trigger] item_kept(
            bytes,
            b2,
            this,
            slots,
            k,
        ) by {
            let other = item_at(this, slots[k]);
            assert(0 <= slots[k] < 420);
            assert(stores_apart(script, 0, other + 8, 16));
            assert(stores_apart(script, 0, other + 48, 12));
            lemma_applied_same(bytes, script, other + 8, 16);
            lemma_applied_same(bytes, script, other + 48, 12);
            lemma_same_bytes_part(b1, b2, this as int, kept, other + 8, 16);
            lemma_same_bytes_part(b1, b2, this as int, kept, other + 48, 12);
            lemma_same_bytes_chain(bytes, b1, b2, other + 8, 16);
            lemma_same_bytes_chain(bytes, b1, b2, other + 48, 12);
        }
        lemma_pouch_kept(bytes, b2, this, slots);
        lemma_same_bytes_part(b1, b2, this as int, kept, item + ITEM_VALUE, 4);
        lemma_same_bytes_part(b1, b2, this as int, kept, item + ITEM_EQUIPPED, 1);
        lemma_same_bytes_part(b1, b2, this as int, kept, last as int, 8);
        lemma_load_same::<i32>(b1, b2, (item + ITEM_VALUE) as u64);
        lemma_load_same::<bool>(b1, b2, (item + ITEM_EQUIPPED) as u64);
        lemma_load_same::<Pointer>(b1, b2, last);
        lemma_manager_fields(b2, this);
    }

    /// The sword of which the pouch holds one at most, where a sound pouch
    /// holds and shows it already, is made new instead of being picked up:
    /// its value is zero, it is not equipped, and it is the item that was
    /// added last unless its value was zero or less.
    #[verifier::rlimit(50)]
    pub proof fn lemma_unique_sword(
        image: Seq<u8>,
        bytes: Map<int, u8>,
        this: u64,
        slots: Seq<int>,
        head: int,
        name: Seq<u8>,
        value: i32,
    )
        requires
            is_pouch(bytes, this, slots),
            load::<PauseMenuDataMgr>(bytes, this) == Ok::<Seq<u8>, Error>(image),
            name_in_place(bytes, (this + PMDM_NEWLY_ADDED_ITEM) as u64),
            name == crate::pmdm::master_sword(),
            0 <= head <= slots.len(),
            Self::item_head_spec(image, bytes, PouchCategory::Sword) == Ok::<u64, Error>(
                item_or_null(this, slots, head),
            ),
            Self::present_spec(image, bytes, this, PouchItemType::Sword, name) matches Ok(
                (_, _, found),
            ) && found != 0,
        ensures
            ({
                let found = Self::present_spec(
                    image,
                    bytes,
                    this,
                    PouchItemType::Sword,
                    name,
                )->Ok_0.2;
                &&& load::<i32>(bytes, (found + ITEM_VALUE) as u64) is Ok
                &&& Self::get_spec(image, bytes, this, name, PouchItemType::Sword, value) matches Ok(
                    (after, fresh),
                ) && {
                    &&& is_pouch(after, this, slots)
                    &&& load::<i32>(after, (found + ITEM_VALUE) as u64) == Ok::<i32, Error>(0)
                    &&& load::<bool>(after, (found + ITEM_EQUIPPED) as u64) == Ok::<bool, Error>(
                        false,
                    )
                    &&& Self::last_added_item_of(fresh) == if load::<i32>(
                        bytes,
                        (found + ITEM_VALUE) as u64,
                    )->Ok_0 > 0 {
                        found
                    } else {
                        0
                    }
                }
            }),
    {
        reveal(PauseMenuDataMgr::present_spec);
        lemma_pouch_stored(bytes, this, slots);
        Self::lemma_find(
            image,
            bytes,
            this,
            slots,
            head,
            PouchItemType::Sword,
            name,
            crate::pmdm::RUN_LIMIT as nat,
        );
        let (b1, s1, found) = Self::present_spec(image, bytes, this, PouchItemType::Sword, name)->Ok_0;
        let m = choose|m: int| head <= m < slots.len() && found == #[trigger] item_or_null(
            this,
            slots,
            m,
        );
        let newly = (this + PMDM_NEWLY_ADDED_ITEM) as u64;
        lemma_kept_places(bytes, b1, this, slots[m], ITEM_VALUE as int, 4);
        lemma_load_same::<i32>(bytes, b1, (found + ITEM_VALUE) as u64);
        lemma_kept_places(bytes, b1, this, 420, PMDM_NEWLY_ADDED_ITEM + 48 - 0x441f8, 8);
        lemma_kept_places(bytes, b1, this, 420, PMDM_NEWLY_ADDED_ITEM + 56 - 0x441f8, 4);
        lemma_load_same::<Pointer>(bytes, b1, (newly + ITEM_NAME + STRING_TOP) as u64);
        lemma_load_same::<i32>(bytes, b1, (newly + ITEM_NAME + STRING_BUFFER_SIZE) as u64);
        Self::lemma_respawn(s1, b1, this, slots, m);
    }
}

/// A sound pouch stays sound where its list is well-formed as before, and
/// the bytes of the link offset of the list and of the headers of the names
/// of its items stay as they are, and the manager stays stored.
pub proof fn lemma_pouch_relinked(before: Map<int, u8>, after: Map<int, u8>, this: u64, slots: Seq<int>)
    requires
        is_pouch(before, this, slots),
        is_list(after, (this + PMDM_LIST1) as u64, links_of(this, slots)),
        covered(after, this as int, manager_size()),
        same_bytes(before, after, this + PMDM_LIST1 + LIST_OFFSET, 4),
        forall|k: int|
            0 <= k < slots.len() ==> same_bytes(
                before,
                after,
                item_at(this, #[trigger] slots[k]) + ITEM_NAME + STRING_TOP,
                12,
            ),
    ensures
        is_pouch(after, this, slots),
{
    reveal(is_pouch);
    lemma_load_same::<i32>(before, after, (this + PMDM_LIST1 + LIST_OFFSET) as u64);
    assert forall|k: int| 0 <= k < slots.len() implies #[trigger] sound_item(after, this, slots, k) by {
        assert(sound_item(before, this, slots, k));
        let item = item_at(this, slots[k]);
        assert(same_bytes(before, after, item + ITEM_NAME + STRING_TOP, 12));
        lemma_same_bytes_part(before, after, item + 48, 12, item + 48, 8);
        lemma_same_bytes_part(before, after, item + 48, 12, item + 56, 4);
        lemma_load_same::<Pointer>(before, after, (item + ITEM_NAME + STRING_TOP) as u64);
        lemma_load_same::<i32>(before, after, (item + ITEM_NAME + STRING_BUFFER_SIZE) as u64);
    }
}

impl PauseMenuDataMgr {
    /// Putting the list of a sound pouch in order, after an item has been
    /// added, leaves a sound pouch with the same items in the same order:
    /// the manager's order tells no two items apart.
    #[verifier::rlimit(50)]
    pub proof fn lemma_after_adding(image: Seq<u8>, bytes: Map<int, u8>, this: u64, slots: Seq<int>)
        requires
            is_pouch(bytes, this, slots),
            load::<PauseMenuDataMgr>(bytes, this) == Ok::<Seq<u8>, Error>(image),
        ensures
            Self::after_adding_spec(image, bytes, this) matches Ok((after, fresh)) && {
                &&& is_pouch(after, this, slots)
                &&& load::<PauseMenuDataMgr>(after, this) == Ok::<Seq<u8>, Error>(fresh)
                &&& slots.len() > 0 ==> Self::category_to_sort_of(fresh) == PouchCategory::Invalid
                &&& slots.len() > 0 ==> forall|c: int|
                    0 <= c < 7 ==> Self::item_head_spec(
                        fresh,
                        after,
                        PouchCategory::from_raw_spec(c as i32),
                    ) == Ok::<u64, Error>(#[trigger] first_of(after, this, slots, c, 0))
                &&& slots.len() == 0 ==> after == bytes
            },
    {
        reveal(PauseMenuDataMgr::after_adding_spec);
        lemma_pouch_stored(bytes, this, slots);
        lemma_manager_fields(bytes, this);
        let list = (this + PMDM_LIST1) as u64;
        let links = links_of(this, slots);
        lemma_list_header::<PouchItem>(bytes, list, links);
        if slots.len() > 0 {
            let place = (this + PMDM_CATEGORY_TO_SORT) as u64;
            PouchCategory::lemma_layout(PouchCategory::Invalid);
            let data = PouchCategory::encode(PouchCategory::Invalid);
            let b1 = written(bytes, place as int, data);
            lemma_written_covered(bytes, place as int, data, this as int, manager_size());
            lemma_read_after_write::<PouchCategory>(bytes, place, PouchCategory::Invalid);
            Self::lemma_sorted_kept(bytes, b1, this, slots, place as int, data);
            let header = load::<OffsetList<PouchItem>>(b1, list)->Ok_0;
            let (b2, _) = header.sort_spec(PouchOrder, b1, list)->Ok_0;
            let s2 = load::<PauseMenuDataMgr>(b2, this)->Ok_0;
            Self::lemma_heads(s2, b2, this, slots);
            let (b3, fresh) = Self::list_heads_spec(s2, b2, this)->Ok_0;
            lemma_field_loaded::<PouchCategory>(
                b2,
                this,
                PauseMenuDataMgr::layout_size(),
                PMDM_CATEGORY_TO_SORT as int,
            );
            lemma_field_loaded::<PouchCategory>(
                b3,
                this,
                PauseMenuDataMgr::layout_size(),
                PMDM_CATEGORY_TO_SORT as int,
            );
            lemma_same_but_apart(b2, b3, this + PMDM_LIST_HEADS, 112, place as int, 4);
            lemma_load_same::<PouchCategory>(b2, b3, place);
        }
    }

    /// The second half of `lemma_after_adding`: the sort, after the category
    /// to sort has been stored.
    #[verifier::rlimit(50)]
    proof fn lemma_sorted_kept(
        bytes: Map<int, u8>,
        b1: Map<int, u8>,
        this: u64,
        slots: Seq<int>,
        place: int,
        data: Seq<u8>,
    )
        requires
            is_pouch(bytes, this, slots),
            slots.len() > 0,
            place == this + PMDM_CATEGORY_TO_SORT,
            data.len() == 4,
            b1 == written(bytes, place, data),
            load::<PouchCategory>(b1, place as u64) == Ok::<PouchCategory, Error>(
                PouchCategory::Invalid,
            ),
        ensures
            load::<OffsetList<PouchItem>>(b1, (this + PMDM_LIST1) as u64) matches Ok(list1)
                && list1.sort_spec(PouchOrder, b1, (this + PMDM_LIST1) as u64) matches Ok(
                (after, _),
            ) && load::<PauseMenuDataMgr>(after, this) matches Ok(fresh) && is_pouch(
                after,
                this,
                slots,
            ) && Self::category_to_sort_of(fresh) == PouchCategory::Invalid,
    {
        lemma_pouch_stored(bytes, this, slots);
        let list = (this + PMDM_LIST1) as u64;
        let links = links_of(this, slots);
        lemma_written_covered(bytes, place, data, this as int, manager_size());
        lemma_written_same_bytes(bytes, place, data, this + PMDM_LIST1, 24);
        assert forall|k: int| 0 <= k < slots.len() implies #[trigger] item_kept(
            bytes,
            b1,
            this,
            slots,
            k,
        ) by {
            assert(0 <= slots[k] < 420);
            lemma_written_same_bytes(bytes, place, data, item_at(this, slots[k]) + 8, 16);
            lemma_written_same_bytes(bytes, place, data, item_at(this, slots[k]) + 48, 12);
        }
        lemma_pouch_kept(bytes, b1, this, slots);
        lemma_pouch_stored(b1, this, slots);
        lemma_list_header::<PouchItem>(b1, list, links);
        let list1 = load::<OffsetList<PouchItem>>(b1, list)->Ok_0;
        assert forall|lhs: u64, rhs: u64| #[trigger]
            stays_before(list1, PouchOrder, b1, lhs, rhs) by {}
        list1.lemma_sorted_same(PouchOrder, b1, links, links.len() as int);
        assert(links.subrange(0, links.len() as int) =~= links);
        list1.lemma_sort(PouchOrder, b1, list, links);
        let (after, _) = list1.sort_spec(PouchOrder, b1, list)->Ok_0;
        assert(covered(after, this as int, manager_size())) by {
            assert forall|a: int| this <= a < this + manager_size() implies after.contains_key(a) by {
                assert(b1.contains_key(a));
            }
        }
        Self::lemma_apart_from_links(b1, after, this, slots, this + PMDM_LIST1 + LIST_OFFSET, 4);
        assert forall|k: int| 0 <= k < slots.len() implies same_bytes(
            b1,
            after,
            item_at(this, #[trigger] slots[k]) + ITEM_NAME + STRING_TOP,
            12,
        ) by {
            assert(0 <= slots[k] < 420);
            Self::lemma_apart_from_links(b1, after, this, slots, item_at(this, slots[k]) + 48, 12);
        }
        lemma_pouch_relinked(b1, after, this, slots);
        Self::lemma_apart_from_links(b1, after, this, slots, place, 4);
        lemma_load_same::<PouchCategory>(b1, after, place as u64);
        lemma_field_loaded::<PouchCategory>(
            after,
            this,
            PauseMenuDataMgr::layout_size(),
            PMDM_CATEGORY_TO_SORT as int,
        );
    }

    /// Memories that differ in the links and the sentinel of the list of a
    /// pouch at most hold the same bytes in places that lie in the header
    /// of a name, in the link offset of the list, or behind the slots.
    proof fn lemma_apart_from_links(
        before: Map<int, u8>,
        after: Map<int, u8>,
        this: u64,
        slots: Seq<int>,
        other: int,
        len: int,
    )
        requires
            in_window(this as int, manager_size()),
            forall|k: int| 0 <= k < slots.len() ==> 0 <= #[trigger] slots[k] < 420,
            forall|a: int| after.contains_key(a) == before.contains_key(a),
            forall|a: int|
                before.contains_key(a) && !(this + PMDM_LIST1 <= a < this + PMDM_LIST1 + 16) && (
                forall|k: int|
                    0 <= k < links_of(this, slots).len() ==> !((#[trigger] links_of(
                        this,
                        slots,
                    )[k]) <= a < links_of(this, slots)[k] + 16)) ==> after[a] == before[a],
            other == this + PMDM_LIST1 + LIST_OFFSET && len == 4 || other >= this + PMDM_ITEM_LISTS
                + LISTS_BUFFER + 420 * item_size() || (exists|slot: int|
                0 <= slot < 420 && other == #[trigger] item_at(this, slot) + ITEM_NAME + STRING_TOP
                    && len == 12),
        ensures
            same_bytes(before, after, other, len),
    {
        let links = links_of(this, slots);
        assert forall|a: int|
            #![trigger after.contains_key(a)]
            #![trigger before.contains_key(a)]
            other <= a < other + len implies after.contains_key(a) == before.contains_key(a) && (
        before.contains_key(a) ==> after[a] == before[a]) by {
            if before.contains_key(a) {
                assert forall|k: int| 0 <= k < links.len() implies !((#[trigger] links[k]) <= a
                    < links[k] + 16) by {
                    assert(0 <= slots[k] < 420);
                }
            }
        }
    }
}

} // verus!
