//! What putting a new item into a sound pouch does.
use vstd::prelude::*;

use crate::error::Error;
use crate::heads::first_of;
use crate::image::lemma_field_loaded;
use crate::item::{ITEM_NAME, ItemName, PouchItem};
use crate::list::{
    is_list, lemma_header_parts, lemma_is_list_kept, lemma_list_distinct, lemma_list_header,
    LIST_OFFSET, OffsetList, ring,
};
use crate::mem::{
    covered, in_window, lemma_load_same, lemma_same_but_apart, lemma_same_but_chain,
    lemma_same_but_wider, lemma_same_bytes_part, load, Pointer, same_but, same_bytes, wrap,
};
use crate::pmdm::{PauseMenuDataMgr, PMDM_LIST1, PMDM_LIST2};
use crate::pouch::{
    is_pouch, item_at, item_kept, lemma_manager_fields, lemma_pouch_kept, lemma_pouch_stored,
    links_of, manager_size, name_in_place, sound_item,
};
use crate::string::{holds_text, STRING_BUFFER};
use crate::traits::Updatable;
use crate::types::{PouchCategory, PouchItemType};

verus! {

/// The list of unused slots of the manager at `this` is a well-formed list of
/// the slots of the indices `free`, in this order, which hold their link
/// eight bytes in.
pub open spec fn is_spare(bytes: Map<int, u8>, this: u64, free: Seq<int>) -> bool {
    &&& is_list(bytes, (this + PMDM_LIST2) as u64, links_of(this, free))
    &&& load::<i32>(bytes, (this + PMDM_LIST2 + LIST_OFFSET) as u64) == Ok::<i32, Error>(8i32)
    &&& forall|k: int| 0 <= k < free.len() ==> 0 <= #[trigger] free[k] < 420
}

/// The slot of the index `slot` is none of `slots`.
pub open spec fn is_other(slots: Seq<int>, slot: int) -> bool {
    forall|k: int| 0 <= k < slots.len() ==> #[trigger] slots[k] != slot
}

/// The place of the two lists and of the slots in the manager, and their
/// size: all that picking up an item changes.
pub open spec fn lists_place(this: u64) -> int {
    this + PMDM_LIST1
}

/// The number of bytes of the two lists and the slots.
pub open spec fn lists_size() -> int {
    278928
}

/// Where the slots of the manager lie: behind the headers of the two
/// lists, one after the other, inside the manager.
pub proof fn lemma_slot(this: u64, s: int, t: int)
    requires
        in_window(this as int, manager_size()),
        0 <= s < 420,
        0 <= t < 420,
    ensures
        item_at(this, s) == this + 152 + 664 * s,
        this + 152 <= item_at(this, s),
        item_at(this, s) + 664 <= lists_place(this) + lists_size(),
        lists_place(this) + lists_size() <= this + manager_size(),
        in_window(item_at(this, s) as int, 664),
        s < t ==> item_at(this, s) + 664 <= item_at(this, t),
        item_at(this, s) != 0,
{
    assert(s * 664 == 664 * s) by (nonlinear_arith);
}

/// Bytes that stay but in a slot stay in every other slot, and in the
/// headers of the two lists.
pub proof fn lemma_slot_alone(
    before: Map<int, u8>,
    after: Map<int, u8>,
    this: u64,
    slot: int,
    other: int,
)
    requires
        in_window(this as int, manager_size()),
        0 <= slot < 420,
        0 <= other < 420,
        slot != other,
        same_but(before, after, item_at(this, slot) as int, 664),
    ensures
        same_bytes(before, after, item_at(this, other) as int, 664),
        same_bytes(before, after, this + PMDM_LIST1, 48),
{
    lemma_slot(this, slot, other);
    lemma_slot(this, other, slot);
}

/// A sound pouch and its list of unused slots stay as they are where no
/// byte changes but in a slot that is none of theirs.
pub proof fn lemma_kept_but_slot(
    before: Map<int, u8>,
    after: Map<int, u8>,
    this: u64,
    used: Seq<int>,
    free: Seq<int>,
    slot: int,
)
    requires
        is_pouch(before, this, used),
        is_spare(before, this, free),
        is_other(used, slot),
        is_other(free, slot),
        0 <= slot < 420,
        same_but(before, after, item_at(this, slot) as int, 664),
    ensures
        is_pouch(after, this, used),
        is_spare(after, this, free),
{
    lemma_pouch_stored(before, this, used);
    let spare = (this + PMDM_LIST2) as u64;
    assert(covered(after, this as int, manager_size())) by {
        assert forall|a: int| this <= a < this + manager_size() implies after.contains_key(a) by {
            assert(before.contains_key(a));
        }
    }
    lemma_slot(this, slot, slot);
    lemma_same_but_apart(before, after, item_at(this, slot) as int, 664, this + PMDM_LIST1, 24);
    lemma_same_but_apart(before, after, item_at(this, slot) as int, 664, spare as int, 24);
    lemma_same_but_apart(before, after, item_at(this, slot) as int, 664, spare + LIST_OFFSET, 4);
    assert forall|k: int| 0 <= k < used.len() implies #[trigger] item_kept(
        before,
        after,
        this,
        used,
        k,
    ) by {
        lemma_slot_alone(before, after, this, slot, used[k]);
        let at = item_at(this, used[k]) as int;
        lemma_same_bytes_part(before, after, at, 664, at + 8, 16);
        lemma_same_bytes_part(before, after, at, 664, at + 48, 12);
    }
    lemma_pouch_kept(before, after, this, used);
    let links = links_of(this, free);
    assert forall|k: int| 0 <= k < links.len() implies same_bytes(
        before,
        after,
        #[trigger] links[k] as int,
        16,
    ) by {
        lemma_slot_alone(before, after, this, slot, free[k]);
        lemma_slot(this, free[k], free[k]);
        let at = item_at(this, free[k]) as int;
        lemma_same_bytes_part(before, after, at, 664, at + 8, 16);
    }
    lemma_is_list_kept(before, after, spare, links);
    lemma_load_same::<i32>(before, after, (spare + LIST_OFFSET) as u64);
}

impl PauseMenuDataMgr {
    /// Building an item in a slot that is none of a sound pouch and none of
    /// its unused slots, and making it an item of a name, a kind and a
    /// value, succeeds, leaves that item in the slot, and changes no byte
    /// outside the slot.
    #[verifier::rlimit(80)]
    pub proof fn lemma_build(
        bytes: Map<int, u8>,
        this: u64,
        used: Seq<int>,
        free: Seq<int>,
        slot: int,
        name: Seq<u8>,
        kind: PouchItemType,
        value: i32,
    )
        requires
            is_pouch(bytes, this, used),
            is_spare(bytes, this, free),
            is_other(used, slot),
            is_other(free, slot),
            0 <= slot < 420,
        ensures
            load::<PouchItem>(bytes, item_at(this, slot)) matches Ok(blank) && PouchItem::ctor_spec(
                blank,
                bytes,
                item_at(this, slot),
            ) matches Ok((b2, built)) && PouchItem::fill_spec(
                built,
                b2,
                item_at(this, slot),
                name,
                kind,
                value,
            ) matches Ok((after, _)) && {
                &&& is_pouch(after, this, used)
                &&& is_spare(after, this, free)
                &&& PouchItem::holds_item(after, item_at(this, slot), kind, value)
                &&& name_in_place(after, item_at(this, slot))
                &&& (forall|i: int|
                    0 <= i < ItemName::kept_text(name).len() ==> ItemName::kept_text(name)[i] != 0)
                    ==> holds_text(
                    after,
                    (item_at(this, slot) + ITEM_NAME + STRING_BUFFER) as u64,
                    ItemName::kept_text(name),
                )
                &&& same_but(bytes, after, item_at(this, slot) as int, 664)
            },
    {
        let at = item_at(this, slot);
        lemma_pouch_stored(bytes, this, used);
        lemma_slot(this, slot, slot);
        assert(covered(bytes, at as int, 664));
        let blank = load::<PouchItem>(bytes, at)->Ok_0;
        PouchItem::lemma_ctor(blank, bytes, at);
        let (b2, built) = PouchItem::ctor_spec(blank, bytes, at)->Ok_0;
        lemma_same_but_wider(bytes, b2, at + 8, 656, at as int, 664);
        PouchItem::lemma_fill(built, b2, at, name, kind, value);
        let (b3, _) = PouchItem::fill_spec(built, b2, at, name, kind, value)->Ok_0;
        assert(same_but(b2, b3, at as int, 664));
        lemma_same_but_chain(bytes, b2, b3, at as int, 664);
        assert(same_bytes(b2, b3, at + 48, 12));
        lemma_same_bytes_part(b2, b3, at + 48, 12, at + 48, 8);
        lemma_same_bytes_part(b2, b3, at + 48, 12, at + 56, 4);
        lemma_load_same::<Pointer>(b2, b3, (at + 48) as u64);
        lemma_load_same::<i32>(b2, b3, (at + 56) as u64);
        lemma_kept_but_slot(bytes, b3, this, used, free, slot);
    }
}

impl PauseMenuDataMgr {
    /// The first of the unused slots of a sound pouch is the slot that
    /// `nth` gives for the index zero; erasing it from their list leaves
    /// the pouch sound and the other unused slots in their list, and
    /// changes no byte outside the lists and the slots.
    #[verifier::rlimit(80)]
    pub proof fn lemma_take(
        image: Seq<u8>,
        bytes: Map<int, u8>,
        this: u64,
        used: Seq<int>,
        free: Seq<int>,
    )
        requires
            is_pouch(bytes, this, used),
            is_spare(bytes, this, free),
            free.len() > 0,
            forall|k: int| 0 <= k < free.len() ==> is_other(used, #[trigger] free[k]),
            load::<PauseMenuDataMgr>(bytes, this) == Ok::<Seq<u8>, Error>(image),
        ensures
            Self::list2_of(image).nth_spec(bytes, 0) == Ok::<u64, Error>(item_at(this, free[0])),
            Self::list2_of(image).erase_spec(
                bytes,
                wrap(this + PMDM_LIST2),
                item_at(this, free[0]),
            ) matches Ok((after, _)) && {
                &&& is_pouch(after, this, used)
                &&& is_spare(after, this, free.drop_first())
                &&& is_other(free.drop_first(), free[0])
                &&& same_but(bytes, after, lists_place(this), lists_size())
            },
    {
        lemma_pouch_stored(bytes, this, used);
        let spare = (this + PMDM_LIST2) as u64;
        let links = links_of(this, free);
        let rest = free.drop_first();
        let slot = item_at(this, free[0]);
        let header = Self::list2_of(image);
        lemma_slot(this, free[0], free[0]);
        lemma_field_loaded::<OffsetList<PouchItem>>(
            bytes,
            this,
            PauseMenuDataMgr::layout_size(),
            PMDM_LIST2 as int,
        );
        lemma_header_parts::<PouchItem>(bytes, spare);
        assert(header.offset == 8);
        assert(links[0] == slot + 8);
        header.lemma_nth(bytes, spare, links, 0);
        header.lemma_erase(bytes, spare, links, 0, slot);
        let (after, _) = header.erase_spec(bytes, spare, slot)->Ok_0;
        assert(links.remove(0) =~= links_of(this, rest));
        lemma_list_distinct(bytes, spare, links);
        assert forall|k: int| 0 <= k < rest.len() implies #[trigger] rest[k] != free[0] by {
            assert(links[k + 1] != links[0]);
        }
        let second = ring(spare, links, 1);
        if free.len() > 1 {
            lemma_slot(this, free[1], free[1]);
            assert(second == item_at(this, free[1]) + 8);
        }
        assert(covered(after, this as int, manager_size())) by {
            assert forall|a: int| this <= a < this + manager_size() implies after.contains_key(a) by {
                assert(bytes.contains_key(a));
            }
        }
        assert(same_but(bytes, after, lists_place(this), lists_size()));
        assert(same_bytes(bytes, after, this + PMDM_LIST1, 24));
        assert forall|k: int| 0 <= k < used.len() implies #[trigger] item_kept(
            bytes,
            after,
            this,
            used,
            k,
        ) by {
            assert(is_other(used, free[0]));
            lemma_slot(this, used[k], free[0]);
            lemma_slot(this, free[0], used[k]);
            if free.len() > 1 {
                assert(is_other(used, free[1]));
                lemma_slot(this, used[k], free[1]);
                lemma_slot(this, free[1], used[k]);
            }
        }
        lemma_pouch_kept(bytes, after, this, used);
        assert(same_bytes(bytes, after, spare + LIST_OFFSET, 4));
        lemma_load_same::<i32>(bytes, after, (spare + LIST_OFFSET) as u64);
    }
}

impl PauseMenuDataMgr {
    /// Linking an item whose name is in place, in a slot that is none of a
    /// sound pouch and none of its unused slots, into the list of items in
    /// use leaves a sound pouch with that slot last, and changes no byte
    /// but in the link of the item, in the link before it, and in the
    /// header of the list.
    #[verifier::rlimit(80)]
    pub proof fn lemma_link(bytes: Map<int, u8>, this: u64, used: Seq<int>, free: Seq<int>, slot: int)
        requires
            is_pouch(bytes, this, used),
            is_spare(bytes, this, free),
            forall|k: int| 0 <= k < free.len() ==> is_other(used, #[trigger] free[k]),
            is_other(used, slot),
            is_other(free, slot),
            0 <= slot < 420,
            name_in_place(bytes, item_at(this, slot)),
            used.len() < i32::MAX,
        ensures
            Self::link_spec(bytes, this, item_at(this, slot)) matches Ok((after, fresh)) && {
                &&& load::<PauseMenuDataMgr>(after, this) == Ok::<Seq<u8>, Error>(fresh)
                &&& is_pouch(after, this, used.push(slot))
                &&& is_spare(after, this, free)
                &&& same_but(bytes, after, lists_place(this), lists_size())
                &&& same_bytes(bytes, after, item_at(this, slot) + 24, 640)
            },
    {
        lemma_pouch_stored(bytes, this, used);
        let list = (this + PMDM_LIST1) as u64;
        let spare = (this + PMDM_LIST2) as u64;
        let links = links_of(this, used);
        let at = item_at(this, slot);
        let n = used.len() as int;
        lemma_slot(this, slot, slot);
        lemma_list_header::<PouchItem>(bytes, list, links);
        lemma_header_parts::<PouchItem>(bytes, list);
        let header = load::<OffsetList<PouchItem>>(bytes, list)->Ok_0;
        assert(header.offset == 8) by {
            reveal(is_pouch);
        }
        let node = header.node_of(at);
        assert(node == at + 8);
        assert forall|k: int| 0 <= k < links.len() implies node + 16 <= #[trigger] links[k]
            || links[k] + 16 <= node by {
            assert(used[k] != slot);
            lemma_slot(this, used[k], slot);
            lemma_slot(this, slot, used[k]);
        }
        header.lemma_push_back(bytes, list, links, at);
        let (after, _) = header.push_back_spec(bytes, list, at)->Ok_0;
        assert(links.push(node) =~= links_of(this, used.push(slot)));
        let last = ring(list, links, n - 1);
        if n > 0 {
            lemma_slot(this, used[n - 1], used[n - 1]);
            assert(last == item_at(this, used[n - 1]) + 8);
        }
        assert(covered(after, this as int, manager_size())) by {
            assert forall|a: int| this <= a < this + manager_size() implies after.contains_key(a) by {
                assert(bytes.contains_key(a));
            }
        }
        assert(same_but(bytes, after, lists_place(this), lists_size()));
        assert(same_bytes(bytes, after, at + 24, 640)) by {
            if n > 0 {
                lemma_slot(this, used[n - 1], slot);
                lemma_slot(this, slot, used[n - 1]);
            }
        }
        // The list of unused slots stays.
        assert(same_bytes(bytes, after, spare as int, 24));
        let others = links_of(this, free);
        assert forall|k: int| 0 <= k < others.len() implies same_bytes(
            bytes,
            after,
            #[trigger] others[k] as int,
            16,
        ) by {
            assert(free[k] != slot);
            lemma_slot(this, free[k], slot);
            lemma_slot(this, slot, free[k]);
            if n > 0 {
                assert(is_other(used, free[k]));
                lemma_slot(this, free[k], used[n - 1]);
                lemma_slot(this, used[n - 1], free[k]);
            }
        }
        lemma_is_list_kept(bytes, after, spare, others);
        lemma_same_bytes_part(bytes, after, spare as int, 24, spare + LIST_OFFSET, 4);
        lemma_load_same::<i32>(bytes, after, (spare + LIST_OFFSET) as u64);
        // The pouch is sound with the new slot.
        assert(same_bytes(bytes, after, list + LIST_OFFSET, 4));
        lemma_load_same::<i32>(bytes, after, (list + LIST_OFFSET) as u64);
        let more = used.push(slot);
        assert forall|k: int| 0 <= k < more.len() implies #[trigger] sound_item(
            after,
            this,
            more,
            k,
        ) by {
            let other = item_at(this, more[k]);
            if k < n {
                reveal(is_pouch);
                assert(sound_item(bytes, this, used, k));
                assert(more[k] == used[k]);
            }
            lemma_slot(this, more[k], slot);
            lemma_slot(this, slot, more[k]);
            if n > 0 {
                lemma_slot(this, more[k], used[n - 1]);
                lemma_slot(this, used[n - 1], more[k]);
            }
            assert(same_bytes(bytes, after, other + 48, 12));
            lemma_same_bytes_part(bytes, after, other + 48, 12, other + 48, 8);
            lemma_same_bytes_part(bytes, after, other + 48, 12, other + 56, 4);
            lemma_load_same::<Pointer>(bytes, after, (other + 48) as u64);
            lemma_load_same::<i32>(bytes, after, (other + 56) as u64);
        }
        assert(is_pouch(after, this, more)) by {
            reveal(is_pouch);
        }
    }
}

impl PauseMenuDataMgr {
    /// Putting a new item into a sound pouch with an unused slot takes the
    /// first unused slot: the pouch is sound with that slot last, the
    /// other unused slots stay in their list, the item in the slot is of
    /// the kind and the value that were given, and of the name as far as
    /// the item keeps it, and no byte changes outside the lists and the
    /// slots. Without an unused slot nothing changes.
    #[verifier::rlimit(80)]
    pub proof fn lemma_add(
        image: Seq<u8>,
        bytes: Map<int, u8>,
        this: u64,
        used: Seq<int>,
        free: Seq<int>,
        name: Seq<u8>,
        kind: PouchItemType,
        value: i32,
    )
        requires
            is_pouch(bytes, this, used),
            is_spare(bytes, this, free),
            forall|k: int| 0 <= k < free.len() ==> is_other(used, #[trigger] free[k]),
            load::<PauseMenuDataMgr>(bytes, this) == Ok::<Seq<u8>, Error>(image),
            used.len() < i32::MAX,
        ensures
            free.len() == 0 ==> Self::add_spec(image, bytes, this, name, kind, value) == Ok::<
                (Map<int, u8>, Seq<u8>),
                Error,
            >((bytes, image)),
            free.len() > 0 ==> (Self::add_spec(image, bytes, this, name, kind, value) matches Ok(
                (after, fresh),
            ) && {
                &&& load::<PauseMenuDataMgr>(after, this) == Ok::<Seq<u8>, Error>(fresh)
                &&& Self::list1_of(fresh).count == used.len() + 1
                &&& is_pouch(after, this, used.push(free[0]))
                &&& is_spare(after, this, free.drop_first())
                &&& forall|k: int|
                    0 <= k < free.drop_first().len() ==> is_other(
                        used.push(free[0]),
                        #[trigger] free.drop_first()[k],
                    )
                &&& PouchItem::holds_item(after, item_at(this, free[0]), kind, value)
                &&& (forall|i: int|
                    0 <= i < ItemName::kept_text(name).len() ==> ItemName::kept_text(name)[i] != 0)
                    ==> holds_text(
                    after,
                    (item_at(this, free[0]) + ITEM_NAME + STRING_BUFFER) as u64,
                    ItemName::kept_text(name),
                )
                &&& same_but(bytes, after, lists_place(this), lists_size())
            }),
    {
        reveal(PauseMenuDataMgr::add_spec);
        lemma_pouch_stored(bytes, this, used);
        let spare = (this + PMDM_LIST2) as u64;
        if free.len() == 0 {
            lemma_field_loaded::<OffsetList<PouchItem>>(
                bytes,
                this,
                PauseMenuDataMgr::layout_size(),
                PMDM_LIST2 as int,
            );
            Self::list2_of(image).lemma_nth(bytes, spare, links_of(this, free), 0);
        } else {
            let slot = free[0];
            let at = item_at(this, slot);
            let rest = free.drop_first();
            lemma_slot(this, slot, slot);
            Self::lemma_take(image, bytes, this, used, free);
            let (b1, _) = Self::list2_of(image).erase_spec(bytes, spare, at)->Ok_0;
            assert(is_other(used, slot));
            assert forall|k: int| 0 <= k < rest.len() implies is_other(used, #[trigger] rest[k]) by {
                assert(rest[k] == free[k + 1]);
            }
            Self::lemma_build(b1, this, used, rest, slot, name, kind, value);
            let blank = load::<PouchItem>(b1, at)->Ok_0;
            let (b2, built) = PouchItem::ctor_spec(blank, b1, at)->Ok_0;
            let (b3, _) = PouchItem::fill_spec(built, b2, at, name, kind, value)->Ok_0;
            Self::lemma_link(b3, this, used, rest, slot);
            let (b4, fresh) = Self::link_spec(b3, this, at)->Ok_0;
            // The item stays as it was made.
            lemma_same_bytes_part(b3, b4, at + 24, 640, at + 24, 4);
            lemma_same_bytes_part(b3, b4, at + 24, 640, at + 32, 4);
            lemma_same_bytes_part(b3, b4, at + 24, 640, at + 36, 1);
            lemma_same_bytes_part(b3, b4, at + 24, 640, at + 37, 1);
            lemma_load_same::<PouchItemType>(b3, b4, (at + 24) as u64);
            lemma_load_same::<i32>(b3, b4, (at + 32) as u64);
            lemma_load_same::<bool>(b3, b4, (at + 36) as u64);
            lemma_load_same::<bool>(b3, b4, (at + 37) as u64);
            let kept = ItemName::kept_text(name);
            if forall|i: int| 0 <= i < kept.len() ==> kept[i] != 0 {
                let top = (at + ITEM_NAME + STRING_BUFFER) as u64;
                assert forall|i: int| 0 <= i <= kept.len() implies #[trigger] load::<i8>(
                    b4,
                    wrap(top + i),
                ) == load::<i8>(b3, wrap(top + i)) by {
                    lemma_same_bytes_part(b3, b4, at + 24, 640, top + i, 1);
                    lemma_load_same::<i8>(b3, b4, (top + i) as u64);
                }
            }
            // No byte changes outside the lists and the slots.
            lemma_same_but_wider(b1, b3, at as int, 664, lists_place(this), lists_size());
            lemma_same_but_chain(bytes, b1, b3, lists_place(this), lists_size());
            lemma_same_but_chain(bytes, b3, b4, lists_place(this), lists_size());
            let more = used.push(slot);
            assert forall|k: int| 0 <= k < rest.len() implies is_other(more, #[trigger] rest[k]) by {
                assert(is_other(used, rest[k]));
                assert(rest[k] != slot);
                assert forall|j: int| 0 <= j < more.len() implies #[trigger] more[j] != rest[k] by {
                    if j < used.len() {
                        assert(more[j] == used[j]);
                    }
                }
            }
            lemma_pouch_stored(b4, this, more);
            lemma_manager_fields(b4, this);
            lemma_list_header::<PouchItem>(b4, (this + PMDM_LIST1) as u64, links_of(this, more));
        }
    }
}

impl PauseMenuDataMgr {
    /// Picking up an item of some kind that the pouch need not look for,
    /// where a sound pouch has an unused slot, leaves a sound pouch with the
    /// first unused slot last among the items in use, which are one more,
    /// and the head of each category leads to the first item of the
    /// category.
    pub proof fn lemma_new_item(
        image: Seq<u8>,
        bytes: Map<int, u8>,
        this: u64,
        used: Seq<int>,
        free: Seq<int>,
        name: Seq<u8>,
        kind: PouchItemType,
        value: i32,
    )
        requires
            is_pouch(bytes, this, used),
            is_spare(bytes, this, free),
            forall|k: int| 0 <= k < free.len() ==> is_other(used, #[trigger] free[k]),
            load::<PauseMenuDataMgr>(bytes, this) == Ok::<Seq<u8>, Error>(image),
            used.len() < i32::MAX,
            free.len() > 0,
            kind != PouchItemType::Invalid,
            !Self::looks_for_key(kind, name),
            !Self::looks_for_sword(kind, name),
        ensures
            Self::get_spec(image, bytes, this, name, kind, value) matches Ok((after, fresh)) && {
                &&& load::<PauseMenuDataMgr>(after, this) == Ok::<Seq<u8>, Error>(fresh)
                &&& is_pouch(after, this, used.push(free[0]))
                &&& Self::list1_of(fresh).count == used.len() + 1
                &&& forall|c: int|
                    0 <= c < 7 ==> Self::item_head_spec(
                        fresh,
                        after,
                        PouchCategory::from_raw_spec(c as i32),
                    ) == Ok::<u64, Error>(
                        #[trigger] first_of(after, this, used.push(free[0]), c, 0),
                    )
            },
    {
        let more = used.push(free[0]);
        Self::lemma_add(image, bytes, this, used, free, name, kind, value);
        let (b1, s1) = Self::add_spec(image, bytes, this, name, kind, value)->Ok_0;
        Self::lemma_after_adding(s1, b1, this, more);
        let (b2, _) = Self::after_adding_spec(s1, b1, this)->Ok_0;
        lemma_pouch_stored(b2, this, more);
        lemma_manager_fields(b2, this);
        lemma_list_header::<PouchItem>(b2, (this + PMDM_LIST1) as u64, links_of(this, more));
    }
}

} // verus!
