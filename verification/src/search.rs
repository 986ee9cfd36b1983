//! When the search through a sound pouch finds an item.
use vstd::prelude::*;
use vstd::string::{is_ascii, is_ascii_spec_bytes, StringSliceAdditionalSpecFns};

use crate::error::Error;
use crate::heads::{kind_at, lemma_pouch_bounded};
use crate::image::lemma_field_loaded;
use crate::item::{
    ITEM_EQUIPPED, ITEM_IN_INVENTORY, ITEM_ITEM_TYPE, ITEM_NAME, ITEM_VALUE, ItemName, PouchItem,
};
use crate::mem::{
    bytes_at, covered, in_window, lemma_load_same, lemma_read_after_write, lemma_written_covered,
    lemma_written_same_bytes, load, Pointer, wrap, written,
};
use crate::pickup::{lemma_slot, lists_place, lists_size};
use crate::list::{is_list, lemma_header_parts, linked, LIST_COUNT};
use crate::pmdm::{
    master_sword, PauseMenuDataMgr, PMDM_LIST1, PMDM_NEWLY_ADDED_ITEM, repeatable, RUN_LIMIT,
};
use crate::pouch::{
    is_pouch, item_at, item_kept, item_or_null, kept_but_name_ends, lemma_look,
    lemma_manager_fields, lemma_pouch_kept, lemma_pouch_stored, links_of, manager_size, name_end,
    name_in_place, sound_item,
};
use crate::string::{
    holds_text, lemma_compare_text, lemma_signed_byte, STRING_BUFFER, STRING_TOP, VTABLE_ASSURE_TERMINATION,
};
use crate::traits::Updatable;
use crate::types::{PouchCategory, PouchItemType};

verus! {

/// The name of the item in the slot of index `slot` can be compared: the
/// function that ends it lies inside the valid window, and the table that
/// holds that function shares no byte with the lists and the slots.
pub open spec fn can_compare(bytes: Map<int, u8>, this: u64, slot: int) -> bool {
    load::<Pointer>(bytes, (item_at(this, slot) + ITEM_NAME) as u64) matches Ok(table) && {
        let entry = wrap(table + VTABLE_ASSURE_TERMINATION);
        &&& load::<Pointer>(bytes, entry) matches Ok(function) && in_window(function as int, 1)
        &&& entry + 8 <= lists_place(this) || lists_place(this) + lists_size() <= entry
    }
}

/// The item in the slot at position `k` of `slots` has the name `names[k]`,
/// which can be compared.
pub open spec fn named_item(
    bytes: Map<int, u8>,
    this: u64,
    slots: Seq<int>,
    names: Seq<Seq<u8>>,
    k: int,
) -> bool {
    &&& can_compare(bytes, this, slots[k])
    &&& names[k].len() <= 63
    &&& holds_text(
        bytes,
        (item_at(this, slots[k]) + ITEM_NAME + STRING_BUFFER) as u64,
        names[k],
    )
}

/// Whether the item in the slot of index `slot` shows in the inventory.
pub open spec fn shown_at(bytes: Map<int, u8>, this: u64, slot: int) -> bool {
    load::<bool>(bytes, (item_at(this, slot) + ITEM_IN_INVENTORY) as u64) == Ok::<bool, Error>(
        true,
    )
}

/// What the search says of an item of the kind `found`, of the name
/// `stored`, which shows or not, when it looks for an item of the kind
/// `kind` and the name `name`: that no such item follows, that this is the
/// item, or nothing yet.
pub open spec fn verdict_of(
    found: PouchItemType,
    shown: bool,
    stored: Seq<u8>,
    kind: PouchItemType,
    name: Seq<u8>,
) -> Option<bool> {
    if found != kind {
        Some(false)
    } else if shown && stored == name {
        Some(true)
    } else {
        None
    }
}

/// A name that can be compared stays so, and stays the same name, where at
/// most the last byte of the buffer of some name is set to zero.
pub proof fn lemma_name_kept(
    bytes: Map<int, u8>,
    this: u64,
    slots: Seq<int>,
    names: Seq<Seq<u8>>,
    k: int,
    other: int,
)
    requires
        in_window(this as int, manager_size()),
        covered(bytes, this as int, manager_size()),
        0 <= k < slots.len(),
        names.len() == slots.len(),
        0 <= slots[k] < 420,
        0 <= other < 420,
        named_item(bytes, this, slots, names, k),
    ensures
        named_item(
            written(bytes, item_at(this, other) + name_end(), seq![0u8]),
            this,
            slots,
            names,
            k,
        ),
        shown_at(written(bytes, item_at(this, other) + name_end(), seq![0u8]), this, slots[k])
            == shown_at(bytes, this, slots[k]),
        kind_at(written(bytes, item_at(this, other) + name_end(), seq![0u8]), this, slots[k])
            == kind_at(bytes, this, slots[k]),
{
    let place = item_at(this, other) + name_end();
    let after = written(bytes, place, seq![0u8]);
    let at = item_at(this, slots[k]);
    let top = (at + ITEM_NAME + STRING_BUFFER) as u64;
    let text = names[k];
    lemma_slot(this, other, slots[k]);
    lemma_slot(this, slots[k], other);
    let table = load::<Pointer>(bytes, (at + ITEM_NAME) as u64)->Ok_0;
    let entry = wrap(table + VTABLE_ASSURE_TERMINATION);
    lemma_written_same_bytes(bytes, place, seq![0u8], at + ITEM_NAME, 8);
    lemma_load_same::<Pointer>(bytes, after, (at + ITEM_NAME) as u64);
    lemma_written_same_bytes(bytes, place, seq![0u8], entry as int, 8);
    lemma_load_same::<Pointer>(bytes, after, entry);
    lemma_written_same_bytes(bytes, place, seq![0u8], at + ITEM_IN_INVENTORY, 1);
    lemma_load_same::<bool>(bytes, after, (at + ITEM_IN_INVENTORY) as u64);
    lemma_written_same_bytes(bytes, place, seq![0u8], at + ITEM_ITEM_TYPE, 4);
    lemma_load_same::<PouchItemType>(bytes, after, (at + ITEM_ITEM_TYPE) as u64);
    assert forall|i: int| 0 <= i <= text.len() implies #[trigger] load::<i8>(after, wrap(top + i))
        == load::<i8>(bytes, wrap(top + i)) by {
        if top + i == place {
            // The byte that ends the buffer ends the name: it was zero.
            assert(i == text.len());
            assert(load::<i8>(bytes, wrap(top + i)) == Ok::<i8, Error>(0));
            assert(bytes.contains_key(place));
            assert(bytes_at(bytes, place, 1)[0] as i8 == 0);
            lemma_signed_byte(bytes[place], 0u8);
            assert(after =~= bytes);
        } else {
            lemma_written_same_bytes(bytes, place, seq![0u8], top + i, 1);
            lemma_load_same::<i8>(bytes, after, (top + i) as u64);
        }
    }
}

/// A sound pouch stays sound where the last byte of the buffer of the name
/// in some slot is set to zero.
pub proof fn lemma_ended_kept(bytes: Map<int, u8>, this: u64, slots: Seq<int>, other: int)
    requires
        is_pouch(bytes, this, slots),
        0 <= other < 420,
    ensures
        is_pouch(written(bytes, item_at(this, other) + name_end(), seq![0u8]), this, slots),
{
    lemma_pouch_stored(bytes, this, slots);
    let place = item_at(this, other) + name_end();
    let after = written(bytes, place, seq![0u8]);
    lemma_slot(this, other, other);
    lemma_written_covered(bytes, place, seq![0u8], this as int, manager_size());
    lemma_written_same_bytes(bytes, place, seq![0u8], this + PMDM_LIST1, 24);
    assert forall|j: int| 0 <= j < slots.len() implies #[trigger] item_kept(
        bytes,
        after,
        this,
        slots,
        j,
    ) by {
        lemma_slot(this, other, slots[j]);
        lemma_slot(this, slots[j], other);
        let at = item_at(this, slots[j]) as int;
        lemma_written_same_bytes(bytes, place, seq![0u8], at + 8, 16);
        lemma_written_same_bytes(bytes, place, seq![0u8], at + 48, 12);
    }
    lemma_pouch_kept(bytes, after, this, slots);
}

/// Looking at the item in the slot at position `k` of a sound pouch,
/// whose name can be compared, in the search for an item of a kind and a
/// name without a zero byte, succeeds while the search is not exhausted:
/// it says what the kind, the name and the flag of the item make it say,
/// and it sets at most the last byte of the buffer of the item's name to
/// zero.
#[verifier::rlimit(100)]
pub proof fn lemma_seen(
    image: Seq<u8>,
    bytes: Map<int, u8>,
    this: u64,
    slots: Seq<int>,
    names: Seq<Seq<u8>>,
    k: int,
    kind: PouchItemType,
    name: Seq<u8>,
)
    requires
        is_pouch(bytes, this, slots),
        0 <= k < slots.len(),
        names.len() == slots.len(),
        named_item(bytes, this, slots, names, k),
        forall|i: int| 0 <= i < name.len() ==> name[i] != 0,
    ensures
        PauseMenuDataMgr::look_spec(
            image,
            bytes,
            this,
            item_at(this, slots[k]),
            kind,
            name,
            false,
        ) matches Ok((after, fresh, verdict, next)) && {
            &&& after == bytes || after == written(
                bytes,
                item_at(this, slots[k]) + name_end(),
                seq![0u8],
            )
            &&& is_pouch(after, this, slots)
            &&& verdict == verdict_of(
                kind_at(bytes, this, slots[k]),
                shown_at(bytes, this, slots[k]),
                names[k],
                kind,
                name,
            )
            &&& verdict is None ==> next == item_or_null(this, slots, k + 1)
        },
{
    lemma_pouch_stored(bytes, this, slots);
    let at = item_at(this, slots[k]);
    let text = (at + ITEM_NAME) as u64;
    let top = (at + ITEM_NAME + STRING_BUFFER) as u64;
    let size = PouchItem::layout_size();
    lemma_slot(this, slots[k], slots[k]);
    assert(covered(bytes, at as int, 664));
    assert(sound_item(bytes, this, slots, k)) by {
        reveal(is_pouch);
    }
    let item = load::<PouchItem>(bytes, at)->Ok_0;
    lemma_field_loaded::<PouchItemType>(bytes, at, size, ITEM_ITEM_TYPE as int);
    lemma_field_loaded::<bool>(bytes, at, size, ITEM_IN_INVENTORY as int);
    lemma_field_loaded::<ItemName>(bytes, at, size, ITEM_NAME as int);
    ItemName::lemma_string_fields(bytes, text);
    let held = PouchItem::name_of(item);
    if PouchItem::item_type_of(item) == kind && PouchItem::in_inventory_of(item) {
        // The name is ended, and then compared.
        let place = (at + name_end()) as u64;
        i8::lemma_layout(0);
        assert(i8::encode(0) =~= seq![0u8]);
        let b1 = written(bytes, place as int, seq![0u8]);
        lemma_read_after_write::<i8>(bytes, place, 0);
        lemma_written_covered(bytes, place as int, seq![0u8], text as int, 88);
        lemma_name_kept(bytes, this, slots, names, k, slots[k]);
        lemma_written_same_bytes(bytes, place as int, seq![0u8], text + STRING_TOP, 8);
        lemma_load_same::<Pointer>(bytes, b1, (text + STRING_TOP) as u64);
        ItemName::lemma_string_fields(b1, text);
        lemma_compare_text(b1, top, names[k], name);
        assert(ItemName::vptr_of(held) == load::<Pointer>(bytes, text)->Ok_0);
        assert(ItemName::top_of(held) == top);
        assert(ItemName::buffer_size_of(held) == 64);
        assert(wrap(top + 64 - 1) == place);
        assert(ItemName::terminate_spec(held, bytes, text) == Ok::<(Map<int, u8>, Seq<u8>), Error>(
            (b1, load::<ItemName>(b1, text)->Ok_0),
        ));
        assert(ItemName::assure_spec(held, bytes, text) == Ok::<(Map<int, u8>, Seq<u8>), Error>(
            (b1, load::<ItemName>(b1, text)->Ok_0),
        ));
        assert(ItemName::top_of(load::<ItemName>(b1, text)->Ok_0) == top);
        assert(ItemName::is_equal_str_spec(held, bytes, text, name) == Ok::<
            (Map<int, u8>, Seq<u8>, bool),
            Error,
        >((b1, load::<ItemName>(b1, text)->Ok_0, name == names[k])));
        assert(PauseMenuDataMgr::named_spec(item, bytes, at, name) == Ok::<
            (Map<int, u8>, bool),
            Error,
        >((b1, name == names[k])));
    }
    if PouchItem::item_type_of(item) == kind && !(PouchItem::in_inventory_of(item) && names[k]
        == name) {
        // The search goes on with the item after this one.
        let b1 = if PouchItem::in_inventory_of(item) {
            written(bytes, at + name_end(), seq![0u8])
        } else {
            bytes
        };
        lemma_ended_kept(bytes, this, slots, slots[k]);
        lemma_written_covered(bytes, at + name_end(), seq![0u8], this as int, manager_size());
        lemma_pouch_stored(b1, this, slots);
        lemma_manager_fields(b1, this);
        let list = (this + PMDM_LIST1) as u64;
        let fresh = load::<PauseMenuDataMgr>(b1, this)->Ok_0;
        lemma_header_parts::<PouchItem>(b1, list);
        assert(PauseMenuDataMgr::list1_of(fresh).offset == 8) by {
            reveal(is_pouch);
        }
        assert(PauseMenuDataMgr::list1_of(fresh).next_spec(b1, list, at) is Ok) by {
            reveal(is_list);
            assert(linked(b1, list, links_of(this, slots), k));
        }
    }
    reveal(PauseMenuDataMgr::look_spec);
    lemma_look(image, bytes, this, slots, k, kind, name, false);
}

impl PauseMenuDataMgr {
    /// The search through a sound pouch for an item of a kind and a name,
    /// from the slot at position `k` on, finds an item where the items from
    /// there up to the one at position `m` are of that kind and have names
    /// that can be compared, and the item at `m` shows and has that name.
    /// It finds the item at `m` where none before it shows and has that
    /// name.
    pub proof fn lemma_search(
        image: Seq<u8>,
        bytes: Map<int, u8>,
        this: u64,
        slots: Seq<int>,
        names: Seq<Seq<u8>>,
        k: int,
        m: int,
        kind: PouchItemType,
        name: Seq<u8>,
        left: nat,
    )
        requires
            is_pouch(bytes, this, slots),
            names.len() == slots.len(),
            0 <= k <= m < slots.len(),
            forall|j: int| k <= j <= m ==> #[trigger] named_item(bytes, this, slots, names, j),
            forall|j: int| k <= j <= m ==> kind_at(bytes, this, #[trigger] slots[j]) == kind,
            shown_at(bytes, this, slots[m]),
            names[m] == name,
            forall|i: int| 0 <= i < name.len() ==> name[i] != 0,
            left > m - k,
        ensures
            Self::find_spec(image, bytes, this, item_at(this, slots[k]), kind, name, left) matches Ok(
                (_, _, found),
            ) && found != 0 && ((forall|j: int|
                k <= j < m ==> !(shown_at(bytes, this, #[trigger] slots[j]) && names[j] == name))
                ==> found == item_at(this, slots[m])),
        decreases m - k,
    {
        lemma_pouch_stored(bytes, this, slots);
        lemma_slot(this, slots[k], slots[k]);
        assert(named_item(bytes, this, slots, names, k));
        lemma_seen(image, bytes, this, slots, names, k, kind, name);
        let at = item_at(this, slots[k]);
        let (after, fresh, verdict, next) = Self::look_spec(
            image,
            bytes,
            this,
            at,
            kind,
            name,
            false,
        )->Ok_0;
        assert(kind_at(bytes, this, slots[k]) == kind);
        if verdict is None {
            assert(k < m);
            assert forall|j: int| k + 1 <= j <= m implies #[trigger] named_item(
                after,
                this,
                slots,
                names,
                j,
            ) by {
                assert(named_item(bytes, this, slots, names, j));
                lemma_name_kept(bytes, this, slots, names, j, slots[k]);
            }
            assert forall|j: int| k + 1 <= j <= m implies kind_at(after, this, #[trigger] slots[j])
                == kind by {
                assert(named_item(bytes, this, slots, names, j));
                lemma_name_kept(bytes, this, slots, names, j, slots[k]);
            }
            assert(shown_at(after, this, slots[m])) by {
                assert(named_item(bytes, this, slots, names, m));
                lemma_name_kept(bytes, this, slots, names, m, slots[k]);
            }
            assert forall|j: int| k + 1 <= j < m implies shown_at(after, this, #[trigger] slots[j])
                == shown_at(bytes, this, slots[j]) by {
                assert(named_item(bytes, this, slots, names, j));
                lemma_name_kept(bytes, this, slots, names, j, slots[k]);
            }
            Self::lemma_search(
                fresh,
                after,
                this,
                slots,
                names,
                k + 1,
                m,
                kind,
                name,
                (left - 1) as nat,
            );
        }
    }
}

impl PauseMenuDataMgr {
    /// In a sound pouch in which the head of a category leads to the item at
    /// the position `head`, and the items from there up to the one at
    /// position `m` are of the kind that is looked for and have names that
    /// can be compared, the manager finds an item that shows and has the
    /// name: the item at `m` where none before it does.
    pub proof fn lemma_present(
        image: Seq<u8>,
        bytes: Map<int, u8>,
        this: u64,
        slots: Seq<int>,
        names: Seq<Seq<u8>>,
        head: int,
        m: int,
        kind: PouchItemType,
        name: Seq<u8>,
    )
        requires
            is_pouch(bytes, this, slots),
            load::<PauseMenuDataMgr>(bytes, this) == Ok::<Seq<u8>, Error>(image),
            names.len() == slots.len(),
            0 <= head <= m < slots.len(),
            Self::item_head_spec(
                image,
                bytes,
                if kind == PouchItemType::KeyItem {
                    PouchCategory::KeyItem
                } else {
                    PouchCategory::Sword
                },
            ) == Ok::<u64, Error>(item_at(this, slots[head])),
            forall|j: int| head <= j <= m ==> #[trigger] named_item(bytes, this, slots, names, j),
            forall|j: int| head <= j <= m ==> kind_at(bytes, this, #[trigger] slots[j]) == kind,
            shown_at(bytes, this, slots[m]),
            names[m] == name,
            forall|i: int| 0 <= i < name.len() ==> name[i] != 0,
        ensures
            Self::present_spec(image, bytes, this, kind, name) matches Ok((_, _, found)) && found
                != 0 && ((forall|j: int|
                head <= j < m ==> !(shown_at(bytes, this, #[trigger] slots[j]) && names[j] == name))
                ==> found == item_at(this, slots[m])),
    {
        reveal(PauseMenuDataMgr::present_spec);
        lemma_pouch_stored(bytes, this, slots);
        lemma_pouch_bounded(bytes, this, slots);
        lemma_manager_fields(bytes, this);
        let list = (this + PMDM_LIST1) as u64;
        Self::list1_of(image).lemma_traverse(bytes, list, links_of(this, slots));
        Self::lemma_search(
            image,
            bytes,
            this,
            slots,
            names,
            head,
            m,
            kind,
            name,
            RUN_LIMIT as nat,
        );
    }

    /// A key item of which the pouch holds one at most is not picked up
    /// again where a sound pouch holds it and shows it: where the head of
    /// the key items leads to the item at the position `head`, the items
    /// from there up to the one at position `m` are key items with names
    /// that can be compared, and the item at `m` shows and has the name,
    /// picking it up leaves the pouch sound with the same items, and its
    /// list counts what it counted.
    pub proof fn lemma_key_item_dedup(
        image: Seq<u8>,
        bytes: Map<int, u8>,
        this: u64,
        slots: Seq<int>,
        names: Seq<Seq<u8>>,
        head: int,
        m: int,
        name: Seq<u8>,
        value: i32,
    )
        requires
            is_pouch(bytes, this, slots),
            load::<PauseMenuDataMgr>(bytes, this) == Ok::<Seq<u8>, Error>(image),
            names.len() == slots.len(),
            0 <= head <= m < slots.len(),
            Self::item_head_spec(image, bytes, PouchCategory::KeyItem) == Ok::<u64, Error>(
                item_at(this, slots[head]),
            ),
            forall|j: int| head <= j <= m ==> #[trigger] named_item(bytes, this, slots, names, j),
            forall|j: int|
                head <= j <= m ==> kind_at(bytes, this, #[trigger] slots[j])
                    == PouchItemType::KeyItem,
            shown_at(bytes, this, slots[m]),
            names[m] == name,
            forall|i: int| 0 <= i < name.len() ==> name[i] != 0,
            !repeatable(name),
        ensures
            Self::get_spec(image, bytes, this, name, PouchItemType::KeyItem, value) matches Ok(
                (after, fresh),
            ) && {
                &&& is_pouch(after, this, slots)
                &&& load::<i32>(after, (this + PMDM_LIST1 + LIST_COUNT) as u64) == Ok::<i32, Error>(
                    slots.len() as i32,
                )
                &&& kept_but_name_ends(bytes, after, this)
            },
    {
        Self::lemma_present(
            image,
            bytes,
            this,
            slots,
            names,
            head,
            m,
            PouchItemType::KeyItem,
            name,
        );
        Self::lemma_key_item_present(image, bytes, this, slots, head, name, value);
    }

    /// The sword of which the pouch holds one at most is made new where a
    /// sound pouch holds it and shows it: where the head of the swords
    /// leads to the item at the position `head`, the items from there up
    /// to the one at position `m` are swords with names that can be
    /// compared, and the item at `m` is the first of them that shows and
    /// has the name, picking the sword up leaves the pouch sound with the
    /// same items, the value of that item zero and the item not equipped,
    /// and makes it the item that was added last unless its value was zero
    /// or less.
    pub proof fn lemma_sword_respawn(
        image: Seq<u8>,
        bytes: Map<int, u8>,
        this: u64,
        slots: Seq<int>,
        names: Seq<Seq<u8>>,
        head: int,
        m: int,
        name: Seq<u8>,
        value: i32,
    )
        requires
            is_pouch(bytes, this, slots),
            load::<PauseMenuDataMgr>(bytes, this) == Ok::<Seq<u8>, Error>(image),
            name_in_place(bytes, (this + PMDM_NEWLY_ADDED_ITEM) as u64),
            names.len() == slots.len(),
            0 <= head <= m < slots.len(),
            Self::item_head_spec(image, bytes, PouchCategory::Sword) == Ok::<u64, Error>(
                item_at(this, slots[head]),
            ),
            forall|j: int| head <= j <= m ==> #[trigger] named_item(bytes, this, slots, names, j),
            forall|j: int|
                head <= j <= m ==> kind_at(bytes, this, #[trigger] slots[j])
                    == PouchItemType::Sword,
            forall|j: int|
                head <= j < m ==> !(shown_at(bytes, this, #[trigger] slots[j]) && names[j] == name),
            shown_at(bytes, this, slots[m]),
            names[m] == name,
            name == master_sword(),
        ensures
            load::<i32>(bytes, (item_at(this, slots[m]) + ITEM_VALUE) as u64) matches Ok(worth)
                && Self::get_spec(image, bytes, this, name, PouchItemType::Sword, value) matches Ok(
                (after, fresh),
            ) && {
                &&& is_pouch(after, this, slots)
                &&& load::<i32>(after, (item_at(this, slots[m]) + ITEM_VALUE) as u64) == Ok::<
                    i32,
                    Error,
                >(0)
                &&& load::<bool>(after, (item_at(this, slots[m]) + ITEM_EQUIPPED) as u64) == Ok::<
                    bool,
                    Error,
                >(false)
                &&& Self::last_added_item_of(fresh) == if worth > 0 {
                    item_at(this, slots[m])
                } else {
                    0
                }
            },
    {
        lemma_sword_name();
        Self::lemma_present(
            image,
            bytes,
            this,
            slots,
            names,
            head,
            m,
            PouchItemType::Sword,
            name,
        );
        Self::lemma_unique_sword(image, bytes, this, slots, head, name, value);
    }
}

/// The name of the sword of which the pouch holds one at most holds no zero
/// byte.
pub proof fn lemma_sword_name()
    ensures
        forall|i: int| 0 <= i < master_sword().len() ==> master_sword()[i] != 0,
{
    let text = "Weapon_Sword_070";
    reveal_strlit("Weapon_Sword_070");
    assert(is_ascii(text));
    is_ascii_spec_bytes(text);
    assert forall|i: int| 0 <= i < master_sword().len() implies master_sword()[i] != 0 by {
        assert(master_sword()[i] == text@[i] as u8);
    }
}

} // verus!
