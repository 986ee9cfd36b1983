//! The manager of the pause menu's data: the items of the pouch, the two
//! lists that they are linked into, and what the game remembers about them.
use vstd::prelude::*;
use vstd::string::StringSliceAdditionalSpecFns;

use crate::error::Error;
use crate::image::{copy_range, field, read_field};
use crate::item::{ITEM_EQUIPPED, ITEM_IN_INVENTORY, ITEM_NAME, ITEM_VALUE, ItemName, PouchItem};
use crate::item::{ITEM_EFFECT_ID, ITEM_EFFECT_LEVEL, ITEM_ITEM_TYPE, ITEM_ITEM_USE, NO_EFFECT_BITS};
use crate::list::{LIST_COUNT, OffsetList};
use crate::sort::SortPredicate;
use crate::mem::{load, Memory, Pointer, shifted, store, wrap};
use crate::script::{new_script, push_store, refreshed, run, run_stores, stores_of, write_refresh};
use crate::traits::{Constructor, Updatable};
use crate::types::{
    CriticalSection, GameDataItem, GrabbedItemInfo, ItemUse, PouchCategory, PouchItemType,
    SafeArray, WeaponModifierInfo,
};

verus! {

/// What a save file holds: its items.
pub type GameData = Vec<GameDataItem>;

/// Offset of the header of the list of items in use.
pub const LISTS_LIST1: usize = 0;

/// Offset of the header of the list of unused slots.
pub const LISTS_LIST2: usize = 24;

/// Offset of the slots of the items.
pub const LISTS_BUFFER: usize = 48;

/// The two lists of items and the items themselves, as they lie in memory:
/// the list of the items that the pouch shows, the list of the slots that it
/// does not use, and the 420 slots. The view is the whole byte image.
pub struct Lists {
    image: Vec<u8>,
}

impl View for Lists {
    type V = Seq<u8>;

    closed spec fn view(&self) -> Seq<u8> {
        self.image@
    }
}

impl Clone for Lists {
    fn clone(&self) -> (r: Self)
        ensures
            r@ == self@,
    {
        proof {
            use_type_invariant(self);
        }
        Lists { image: copy_range(self.image.as_slice(), 0, self.image.len()) }
    }
}

impl Updatable for Lists {
    open spec fn layout_size() -> usize {
        278928
    }

    open spec fn decode(bytes: Seq<u8>) -> Seq<u8> {
        bytes
    }

    open spec fn encode(value: Seq<u8>) -> Seq<u8> {
        value
    }

    open spec fn representable(value: Seq<u8>) -> bool {
        value.len() == Self::layout_size()
    }

    proof fn lemma_layout(value: Seq<u8>) {
    }

    fn size() -> (n: usize) {
        278928
    }

    fn from_bytes(bytes: &[u8]) -> (value: Self) {
        let value = Lists { image: copy_range(bytes, 0, bytes.len()) };
        assert(bytes@.subrange(0, bytes@.len() as int) =~= bytes@);
        assert(Self::representable(value@));
        assert(value@ == Self::decode(bytes@));
        value
    }

    fn to_bytes(&self) -> (bytes: Vec<u8>) {
        proof {
            use_type_invariant(self);
        }
        let bytes = copy_range(self.image.as_slice(), 0, self.image.len());
        assert(self@.subrange(0, self@.len() as int) =~= self@);
        assert(Self::representable(self@));
        assert(bytes@ == Self::encode(self@));
        bytes
    }
}

impl Lists {
    #[verifier::type_invariant]
    spec fn inv(self) -> bool {
        self.image@.len() == Self::layout_size()
    }

    /// The header of the list of items in use, as an image holds it.
    pub open spec fn list1_of(image: Seq<u8>) -> OffsetList<PouchItem> {
        field::<OffsetList<PouchItem>>(image, LISTS_LIST1 as int)
    }

    /// The header of the list of items in use.
    pub fn list1(&self) -> (value: OffsetList<PouchItem>)
        ensures
            value@ == Self::list1_of(self@),
            self@.len() == Self::layout_size(),
    {
        proof {
            use_type_invariant(self);
        }
        read_field::<OffsetList<PouchItem>>(self.image.as_slice(), LISTS_LIST1)
    }

    /// The header of the list of unused slots, as an image holds it.
    pub open spec fn list2_of(image: Seq<u8>) -> OffsetList<PouchItem> {
        field::<OffsetList<PouchItem>>(image, LISTS_LIST2 as int)
    }

    /// The header of the list of unused slots.
    pub fn list2(&self) -> (value: OffsetList<PouchItem>)
        ensures
            value@ == Self::list2_of(self@),
            self@.len() == Self::layout_size(),
    {
        proof {
            use_type_invariant(self);
        }
        read_field::<OffsetList<PouchItem>>(self.image.as_slice(), LISTS_LIST2)
    }

    /// The slots of the items, as an image holds it.
    pub open spec fn buffer_of(image: Seq<u8>) -> Seq<u8> {
        field::<SafeArray<PouchItem, 420>>(image, LISTS_BUFFER as int)
    }

    /// The slots of the items.
    pub fn buffer(&self) -> (value: SafeArray<PouchItem, 420>)
        ensures
            value@ == Self::buffer_of(self@),
            self@.len() == Self::layout_size(),
    {
        proof {
            use_type_invariant(self);
        }
        read_field::<SafeArray<PouchItem, 420>>(self.image.as_slice(), LISTS_BUFFER)
    }
}

/// Offset of the pointer to the table of virtual functions.
pub const PMDM_VPTR: usize = 0;

/// Offset of the buffer of the disposer of the one instance.
pub const PMDM_SINGLETON_DISPOSER_BUF: usize = 0x8;

/// Offset of the critical section that guards the manager.
pub const PMDM_CRIT_SECTION: usize = 0x28;

/// Offset of the lists of items and the items.
pub const PMDM_ITEM_LISTS: usize = 0x68;

/// Offset of the header of the list of items in use.
pub const PMDM_LIST1: usize = 0x68;

/// Offset of the header of the list of unused slots.
pub const PMDM_LIST2: usize = 0x80;

/// Offset of the pointers to the first item of each category.
pub const PMDM_LIST_HEADS: usize = 0x441f8;

/// Offset of the first item of each tab.
pub const PMDM_TABS: usize = 0x44230;

/// Offset of the kind of item of each tab.
pub const PMDM_TABS_TYPE: usize = 0x443c0;

/// Offset of the item that was added last.
pub const PMDM_LAST_ADDED_ITEM: usize = 0x44488;

/// Offset of the tab of the item that was added last.
pub const PMDM_LAST_ADDED_ITEM_TAB: usize = 0x44490;

/// Offset of the slot of the item that was added last.
pub const PMDM_LAST_ADDED_ITEM_SLOT: usize = 0x44494;

/// Offset of the number of tabs.
pub const PMDM_NUM_TABS: usize = 0x44498;

/// Offset of the items that are held in the hands.
pub const PMDM_GRABBED_ITEMS: usize = 0x444a0;

/// Offset of the item that the game dealt with last.
pub const PMDM_ITEM_444F0: usize = 0x444f0;

/// Offset of the word of unknown meaning after that item.
pub const PMDM_WORD_444F8: usize = 0x444f8;

/// Offset of the item of the champion of the Rito.
pub const PMDM_RITO_SOUL_ITEM: usize = 0x44518;

/// Offset of the item of the champion of the Gorons.
pub const PMDM_GORON_SOUL_ITEM: usize = 0x44520;

/// Offset of the item of the champion of the Zora.
pub const PMDM_ZORA_SOUL_ITEM: usize = 0x44528;

/// Offset of the item of the champion of the Gerudo.
pub const PMDM_GERUDO_SOUL_ITEM: usize = 0x44530;

/// Offset of whether the health bar of enemies shows.
pub const PMDM_CAN_SEE_HEALTH_BAR: usize = 0x44538;

/// Offset of the copy of the item that was added last.
pub const PMDM_NEWLY_ADDED_ITEM: usize = 0x44540;

/// Offset of whether the pouch is the one of a quest.
pub const PMDM_IS_POUCH_FOR_QUEST: usize = 0x447d8;

/// Offset of the weapons that are equipped.
pub const PMDM_EQUIPPED_WEAPONS: usize = 0x447e0;

/// Offset of the category that is sorted next.
pub const PMDM_CATEGORY_TO_SORT: usize = 0x44800;

/// The manager of the pause menu's data, as it lies in memory. The view is
/// the whole byte image.
pub struct PauseMenuDataMgr {
    image: Vec<u8>,
}

impl View for PauseMenuDataMgr {
    type V = Seq<u8>;

    closed spec fn view(&self) -> Seq<u8> {
        self.image@
    }
}

impl Clone for PauseMenuDataMgr {
    fn clone(&self) -> (r: Self)
        ensures
            r@ == self@,
    {
        proof {
            use_type_invariant(self);
        }
        PauseMenuDataMgr { image: copy_range(self.image.as_slice(), 0, self.image.len()) }
    }
}

impl Updatable for PauseMenuDataMgr {
    open spec fn layout_size() -> usize {
        0x44808
    }

    open spec fn decode(bytes: Seq<u8>) -> Seq<u8> {
        bytes
    }

    open spec fn encode(value: Seq<u8>) -> Seq<u8> {
        value
    }

    open spec fn representable(value: Seq<u8>) -> bool {
        value.len() == Self::layout_size()
    }

    proof fn lemma_layout(value: Seq<u8>) {
    }

    fn size() -> (n: usize) {
        0x44808
    }

    fn from_bytes(bytes: &[u8]) -> (value: Self) {
        let value = PauseMenuDataMgr { image: copy_range(bytes, 0, bytes.len()) };
        assert(bytes@.subrange(0, bytes@.len() as int) =~= bytes@);
        assert(Self::representable(value@));
        assert(value@ == Self::decode(bytes@));
        value
    }

    fn to_bytes(&self) -> (bytes: Vec<u8>) {
        proof {
            use_type_invariant(self);
        }
        let bytes = copy_range(self.image.as_slice(), 0, self.image.len());
        assert(self@.subrange(0, self@.len() as int) =~= self@);
        assert(Self::representable(self@));
        assert(bytes@ == Self::encode(self@));
        bytes
    }
}

impl PauseMenuDataMgr {
    #[verifier::type_invariant]
    spec fn inv(self) -> bool {
        self.image@.len() == Self::layout_size()
    }

    /// The pointer to the table of virtual functions, as an image holds it.
    pub open spec fn vptr_of(image: Seq<u8>) -> u64 {
        field::<Pointer>(image, PMDM_VPTR as int)
    }

    /// The pointer to the table of virtual functions.
    pub fn vptr(&self) -> (value: Pointer)
        ensures
            value@ == Self::vptr_of(self@),
            self@.len() == Self::layout_size(),
    {
        proof {
            use_type_invariant(self);
        }
        read_field::<Pointer>(self.image.as_slice(), PMDM_VPTR)
    }

    /// The buffer of the disposer of the one instance, as an image holds it.
    pub open spec fn singleton_disposer_buf_of(image: Seq<u8>) -> Seq<u8> {
        field::<SafeArray<u32, 8>>(image, PMDM_SINGLETON_DISPOSER_BUF as int)
    }

    /// The buffer of the disposer of the one instance.
    pub fn singleton_disposer_buf(&self) -> (value: SafeArray<u32, 8>)
        ensures
            value@ == Self::singleton_disposer_buf_of(self@),
            self@.len() == Self::layout_size(),
    {
        proof {
            use_type_invariant(self);
        }
        read_field::<SafeArray<u32, 8>>(self.image.as_slice(), PMDM_SINGLETON_DISPOSER_BUF)
    }

    /// The critical section that guards the manager, as an image holds it.
    pub open spec fn crit_section_of(image: Seq<u8>) -> Seq<u8> {
        field::<CriticalSection>(image, PMDM_CRIT_SECTION as int)
    }

    /// The critical section that guards the manager.
    pub fn crit_section(&self) -> (value: CriticalSection)
        ensures
            value@ == Self::crit_section_of(self@),
            self@.len() == Self::layout_size(),
    {
        proof {
            use_type_invariant(self);
        }
        read_field::<CriticalSection>(self.image.as_slice(), PMDM_CRIT_SECTION)
    }

    /// The lists of items and the items, as an image holds it.
    pub open spec fn item_lists_of(image: Seq<u8>) -> Seq<u8> {
        field::<Lists>(image, PMDM_ITEM_LISTS as int)
    }

    /// The lists of items and the items.
    pub fn item_lists(&self) -> (value: Lists)
        ensures
            value@ == Self::item_lists_of(self@),
            self@.len() == Self::layout_size(),
    {
        proof {
            use_type_invariant(self);
        }
        read_field::<Lists>(self.image.as_slice(), PMDM_ITEM_LISTS)
    }

    /// The header of the list of items in use, as an image holds it.
    pub open spec fn list1_of(image: Seq<u8>) -> OffsetList<PouchItem> {
        field::<OffsetList<PouchItem>>(image, PMDM_LIST1 as int)
    }

    /// The header of the list of items in use.
    pub fn list1(&self) -> (value: OffsetList<PouchItem>)
        ensures
            value@ == Self::list1_of(self@),
            self@.len() == Self::layout_size(),
    {
        proof {
            use_type_invariant(self);
        }
        read_field::<OffsetList<PouchItem>>(self.image.as_slice(), PMDM_LIST1)
    }

    /// The header of the list of unused slots, as an image holds it.
    pub open spec fn list2_of(image: Seq<u8>) -> OffsetList<PouchItem> {
        field::<OffsetList<PouchItem>>(image, PMDM_LIST2 as int)
    }

    /// The header of the list of unused slots.
    pub fn list2(&self) -> (value: OffsetList<PouchItem>)
        ensures
            value@ == Self::list2_of(self@),
            self@.len() == Self::layout_size(),
    {
        proof {
            use_type_invariant(self);
        }
        read_field::<OffsetList<PouchItem>>(self.image.as_slice(), PMDM_LIST2)
    }

    /// The pointers to the first item of each category, as an image holds it.
    pub open spec fn list_heads_of(image: Seq<u8>) -> Seq<u8> {
        field::<SafeArray<Pointer<Pointer<PouchItem>>, 7>>(image, PMDM_LIST_HEADS as int)
    }

    /// The pointers to the first item of each category.
    pub fn list_heads(&self) -> (value: SafeArray<Pointer<Pointer<PouchItem>>, 7>)
        ensures
            value@ == Self::list_heads_of(self@),
            self@.len() == Self::layout_size(),
    {
        proof {
            use_type_invariant(self);
        }
        read_field::<SafeArray<Pointer<Pointer<PouchItem>>, 7>>(self.image.as_slice(), PMDM_LIST_HEADS)
    }

    /// The first item of each tab, as an image holds it.
    pub open spec fn tabs_of(image: Seq<u8>) -> Seq<u8> {
        field::<SafeArray<Pointer<PouchItem>, 50>>(image, PMDM_TABS as int)
    }

    /// The first item of each tab.
    pub fn tabs(&self) -> (value: SafeArray<Pointer<PouchItem>, 50>)
        ensures
            value@ == Self::tabs_of(self@),
            self@.len() == Self::layout_size(),
    {
        proof {
            use_type_invariant(self);
        }
        read_field::<SafeArray<Pointer<PouchItem>, 50>>(self.image.as_slice(), PMDM_TABS)
    }

    /// The kind of item of each tab, as an image holds it.
    pub open spec fn tabs_type_of(image: Seq<u8>) -> Seq<u8> {
        field::<SafeArray<PouchItemType, 50>>(image, PMDM_TABS_TYPE as int)
    }

    /// The kind of item of each tab.
    pub fn tabs_type(&self) -> (value: SafeArray<PouchItemType, 50>)
        ensures
            value@ == Self::tabs_type_of(self@),
            self@.len() == Self::layout_size(),
    {
        proof {
            use_type_invariant(self);
        }
        read_field::<SafeArray<PouchItemType, 50>>(self.image.as_slice(), PMDM_TABS_TYPE)
    }

    /// The item that was added last, as an image holds it.
    pub open spec fn last_added_item_of(image: Seq<u8>) -> u64 {
        field::<Pointer<PouchItem>>(image, PMDM_LAST_ADDED_ITEM as int)
    }

    /// The item that was added last.
    pub fn last_added_item(&self) -> (value: Pointer<PouchItem>)
        ensures
            value@ == Self::last_added_item_of(self@),
            self@.len() == Self::layout_size(),
    {
        proof {
            use_type_invariant(self);
        }
        read_field::<Pointer<PouchItem>>(self.image.as_slice(), PMDM_LAST_ADDED_ITEM)
    }

    /// The tab of the item that was added last, as an image holds it.
    pub open spec fn last_added_item_tab_of(image: Seq<u8>) -> i32 {
        field::<i32>(image, PMDM_LAST_ADDED_ITEM_TAB as int)
    }

    /// The tab of the item that was added last.
    pub fn last_added_item_tab(&self) -> (value: i32)
        ensures
            value@ == Self::last_added_item_tab_of(self@),
            self@.len() == Self::layout_size(),
    {
        proof {
            use_type_invariant(self);
        }
        read_field::<i32>(self.image.as_slice(), PMDM_LAST_ADDED_ITEM_TAB)
    }

    /// The slot of the item that was added last, as an image holds it.
    pub open spec fn last_added_item_slot_of(image: Seq<u8>) -> i32 {
        field::<i32>(image, PMDM_LAST_ADDED_ITEM_SLOT as int)
    }

    /// The slot of the item that was added last.
    pub fn last_added_item_slot(&self) -> (value: i32)
        ensures
            value@ == Self::last_added_item_slot_of(self@),
            self@.len() == Self::layout_size(),
    {
        proof {
            use_type_invariant(self);
        }
        read_field::<i32>(self.image.as_slice(), PMDM_LAST_ADDED_ITEM_SLOT)
    }

    /// The number of tabs, as an image holds it.
    pub open spec fn num_tabs_of(image: Seq<u8>) -> i32 {
        field::<i32>(image, PMDM_NUM_TABS as int)
    }

    /// The number of tabs.
    pub fn num_tabs(&self) -> (value: i32)
        ensures
            value@ == Self::num_tabs_of(self@),
            self@.len() == Self::layout_size(),
    {
        proof {
            use_type_invariant(self);
        }
        read_field::<i32>(self.image.as_slice(), PMDM_NUM_TABS)
    }

    /// The items that are held in the hands, as an image holds it.
    pub open spec fn grabbed_items_of(image: Seq<u8>) -> Seq<u8> {
        field::<SafeArray<GrabbedItemInfo, 5>>(image, PMDM_GRABBED_ITEMS as int)
    }

    /// The items that are held in the hands.
    pub fn grabbed_items(&self) -> (value: SafeArray<GrabbedItemInfo, 5>)
        ensures
            value@ == Self::grabbed_items_of(self@),
            self@.len() == Self::layout_size(),
    {
        proof {
            use_type_invariant(self);
        }
        read_field::<SafeArray<GrabbedItemInfo, 5>>(self.image.as_slice(), PMDM_GRABBED_ITEMS)
    }

    /// The item that the game dealt with last, as an image holds it.
    pub open spec fn item_444f0_of(image: Seq<u8>) -> u64 {
        field::<Pointer<PouchItem>>(image, PMDM_ITEM_444F0 as int)
    }

    /// The item that the game dealt with last.
    pub fn item_444f0(&self) -> (value: Pointer<PouchItem>)
        ensures
            value@ == Self::item_444f0_of(self@),
            self@.len() == Self::layout_size(),
    {
        proof {
            use_type_invariant(self);
        }
        read_field::<Pointer<PouchItem>>(self.image.as_slice(), PMDM_ITEM_444F0)
    }

    /// The word of unknown meaning after that item, as an image holds it.
    pub open spec fn word_444f8_of(image: Seq<u8>) -> i32 {
        field::<i32>(image, PMDM_WORD_444F8 as int)
    }

    /// The word of unknown meaning after that item.
    pub fn word_444f8(&self) -> (value: i32)
        ensures
            value@ == Self::word_444f8_of(self@),
            self@.len() == Self::layout_size(),
    {
        proof {
            use_type_invariant(self);
        }
        read_field::<i32>(self.image.as_slice(), PMDM_WORD_444F8)
    }

    /// The item of the champion of the Rito, as an image holds it.
    pub open spec fn rito_soul_item_of(image: Seq<u8>) -> u64 {
        field::<Pointer<PouchItem>>(image, PMDM_RITO_SOUL_ITEM as int)
    }

    /// The item of the champion of the Rito.
    pub fn rito_soul_item(&self) -> (value: Pointer<PouchItem>)
        ensures
            value@ == Self::rito_soul_item_of(self@),
            self@.len() == Self::layout_size(),
    {
        proof {
            use_type_invariant(self);
        }
        read_field::<Pointer<PouchItem>>(self.image.as_slice(), PMDM_RITO_SOUL_ITEM)
    }

    /// The item of the champion of the Gorons, as an image holds it.
    pub open spec fn goron_soul_item_of(image: Seq<u8>) -> u64 {
        field::<Pointer<PouchItem>>(image, PMDM_GORON_SOUL_ITEM as int)
    }

    /// The item of the champion of the Gorons.
    pub fn goron_soul_item(&self) -> (value: Pointer<PouchItem>)
        ensures
            value@ == Self::goron_soul_item_of(self@),
            self@.len() == Self::layout_size(),
    {
        proof {
            use_type_invariant(self);
        }
        read_field::<Pointer<PouchItem>>(self.image.as_slice(), PMDM_GORON_SOUL_ITEM)
    }

    /// The item of the champion of the Zora, as an image holds it.
    pub open spec fn zora_soul_item_of(image: Seq<u8>) -> u64 {
        field::<Pointer<PouchItem>>(image, PMDM_ZORA_SOUL_ITEM as int)
    }

    /// The item of the champion of the Zora.
    pub fn zora_soul_item(&self) -> (value: Pointer<PouchItem>)
        ensures
            value@ == Self::zora_soul_item_of(self@),
            self@.len() == Self::layout_size(),
    {
        proof {
            use_type_invariant(self);
        }
        read_field::<Pointer<PouchItem>>(self.image.as_slice(), PMDM_ZORA_SOUL_ITEM)
    }

    /// The item of the champion of the Gerudo, as an image holds it.
    pub open spec fn gerudo_soul_item_of(image: Seq<u8>) -> u64 {
        field::<Pointer<PouchItem>>(image, PMDM_GERUDO_SOUL_ITEM as int)
    }

    /// The item of the champion of the Gerudo.
    pub fn gerudo_soul_item(&self) -> (value: Pointer<PouchItem>)
        ensures
            value@ == Self::gerudo_soul_item_of(self@),
            self@.len() == Self::layout_size(),
    {
        proof {
            use_type_invariant(self);
        }
        read_field::<Pointer<PouchItem>>(self.image.as_slice(), PMDM_GERUDO_SOUL_ITEM)
    }

    /// Whether the health bar of enemies shows, as an image holds it.
    pub open spec fn can_see_health_bar_of(image: Seq<u8>) -> bool {
        field::<bool>(image, PMDM_CAN_SEE_HEALTH_BAR as int)
    }

    /// Whether the health bar of enemies shows.
    pub fn can_see_health_bar(&self) -> (value: bool)
        ensures
            value@ == Self::can_see_health_bar_of(self@),
            self@.len() == Self::layout_size(),
    {
        proof {
            use_type_invariant(self);
        }
        read_field::<bool>(self.image.as_slice(), PMDM_CAN_SEE_HEALTH_BAR)
    }

    /// The copy of the item that was added last, as an image holds it.
    pub open spec fn newly_added_item_of(image: Seq<u8>) -> Seq<u8> {
        field::<PouchItem>(image, PMDM_NEWLY_ADDED_ITEM as int)
    }

    /// The copy of the item that was added last.
    pub fn newly_added_item(&self) -> (value: PouchItem)
        ensures
            value@ == Self::newly_added_item_of(self@),
            self@.len() == Self::layout_size(),
    {
        proof {
            use_type_invariant(self);
        }
        read_field::<PouchItem>(self.image.as_slice(), PMDM_NEWLY_ADDED_ITEM)
    }

    /// Whether the pouch is the one of a quest, as an image holds it.
    pub open spec fn is_pouch_for_quest_of(image: Seq<u8>) -> bool {
        field::<bool>(image, PMDM_IS_POUCH_FOR_QUEST as int)
    }

    /// Whether the pouch is the one of a quest.
    pub fn is_pouch_for_quest(&self) -> (value: bool)
        ensures
            value@ == Self::is_pouch_for_quest_of(self@),
            self@.len() == Self::layout_size(),
    {
        proof {
            use_type_invariant(self);
        }
        read_field::<bool>(self.image.as_slice(), PMDM_IS_POUCH_FOR_QUEST)
    }

    /// The weapons that are equipped, as an image holds it.
    pub open spec fn equipped_weapons_of(image: Seq<u8>) -> Seq<u8> {
        field::<SafeArray<Pointer<PouchItem>, 4>>(image, PMDM_EQUIPPED_WEAPONS as int)
    }

    /// The weapons that are equipped.
    pub fn equipped_weapons(&self) -> (value: SafeArray<Pointer<PouchItem>, 4>)
        ensures
            value@ == Self::equipped_weapons_of(self@),
            self@.len() == Self::layout_size(),
    {
        proof {
            use_type_invariant(self);
        }
        read_field::<SafeArray<Pointer<PouchItem>, 4>>(self.image.as_slice(), PMDM_EQUIPPED_WEAPONS)
    }

    /// The category that is sorted next, as an image holds it.
    pub open spec fn category_to_sort_of(image: Seq<u8>) -> PouchCategory {
        field::<PouchCategory>(image, PMDM_CATEGORY_TO_SORT as int)
    }

    /// The category that is sorted next.
    pub fn category_to_sort(&self) -> (value: PouchCategory)
        ensures
            value@ == Self::category_to_sort_of(self@),
            self@.len() == Self::layout_size(),
    {
        proof {
            use_type_invariant(self);
        }
        read_field::<PouchCategory>(self.image.as_slice(), PMDM_CATEGORY_TO_SORT)
    }
}

/// The order in which the manager sorts its items: it tells no two items
/// apart, so that a sort keeps them as they are.
pub struct PouchOrder;

impl SortPredicate<PouchItem> for PouchOrder {
    open spec fn order(&self, bytes: Map<int, u8>, lhs: u64, rhs: u64) -> Result<i32, Error> {
        Ok(0)
    }

    fn compare(&self, memory: &Memory, lhs: Pointer<PouchItem>, rhs: Pointer<PouchItem>) -> (r:
        Result<i32, Error>) {
        Ok(0)
    }
}

/// The order of items by their value, lowest first.
pub struct ByValue;

impl SortPredicate<PouchItem> for ByValue {
    open spec fn order(&self, bytes: Map<int, u8>, lhs: u64, rhs: u64) -> Result<i32, Error> {
        match load::<i32>(bytes, wrap(lhs + ITEM_VALUE)) {
            Err(e) => Err(e),
            Ok(left) => match load::<i32>(bytes, wrap(rhs + ITEM_VALUE)) {
                Err(e) => Err(e),
                Ok(right) => if left < right {
                    Ok(-1i32)
                } else if left > right {
                    Ok(1i32)
                } else {
                    Ok(0i32)
                },
            },
        }
    }

    fn compare(&self, memory: &Memory, lhs: Pointer<PouchItem>, rhs: Pointer<PouchItem>) -> (r:
        Result<i32, Error>) {
        let left = match memory.read::<i32>(shifted(lhs.address, ITEM_VALUE as i64)) {
            Err(e) => {
                return Err(e);
            },
            Ok(left) => *left,
        };
        let right = match memory.read::<i32>(shifted(rhs.address, ITEM_VALUE as i64)) {
            Err(e) => {
                return Err(e);
            },
            Ok(right) => *right,
        };
        if left < right {
            Ok(-1)
        } else if left > right {
            Ok(1)
        } else {
            Ok(0)
        }
    }
}

impl PauseMenuDataMgr {
    /// The pointer to the first item of the category of number `index`, as
    /// an image holds it.
    pub open spec fn list_head_of(image: Seq<u8>, index: int) -> u64 {
        field::<Pointer>(image, PMDM_LIST_HEADS + 8 * index)
    }

    /// The pointer to the first item of the category of number `index`.
    pub fn list_head(&self, index: usize) -> (p: Pointer<Pointer<PouchItem>>)
        requires
            index < 7,
        ensures
            p.address == Self::list_head_of(self@, index as int),
    {
        proof {
            use_type_invariant(self);
        }
        read_field::<Pointer>(self.image.as_slice(), PMDM_LIST_HEADS + 8 * index).cast()
    }

    /// What `get_item_head` gives: the first item of the category, or null
    /// where the manager knows of none.
    pub open spec fn item_head_spec(image: Seq<u8>, bytes: Map<int, u8>, category: PouchCategory) -> Result<
        u64,
        Error,
    > {
        if category == PouchCategory::Invalid || Self::list_head_of(image, category.raw_spec() as int)
            == 0 {
            Ok(0)
        } else {
            load::<Pointer>(bytes, Self::list_head_of(image, category.raw_spec() as int))
        }
    }

    /// The first item of `category`, or null where the manager knows of none.
    pub fn get_item_head(&self, memory: &Memory, category: PouchCategory) -> (r: Result<
        Pointer<PouchItem>,
        Error,
    >)
        ensures
            match r {
                Ok(p) => Self::item_head_spec(self@, memory.bytes(), category) == Ok::<u64, Error>(
                    p.address,
                ),
                Err(e) => Self::item_head_spec(self@, memory.bytes(), category) == Err::<u64, Error>(
                    e,
                ),
            },
    {
        if category == PouchCategory::Invalid {
            return Ok(Pointer::null());
        }
        let head = self.list_head(category.raw() as usize);
        if head.is_null() {
            return Ok(Pointer::null());
        }
        match head.read(memory) {
            Err(e) => Err(e),
            Ok(first) => Ok(*first),
        }
    }

    /// The stores that begin the clearing of the copy of the newest item.
    pub open spec fn reset_head(this: u64) -> Seq<(u64, Seq<u8>)> {
        seq![
            (
                wrap(this + PMDM_NEWLY_ADDED_ITEM + ITEM_ITEM_TYPE),
                PouchItemType::encode(PouchItemType::Invalid),
            ),
            (wrap(this + PMDM_NEWLY_ADDED_ITEM + ITEM_ITEM_USE), ItemUse::encode(ItemUse::Invalid)),
            (wrap(this + PMDM_NEWLY_ADDED_ITEM + ITEM_VALUE), i32::encode(0)),
            (wrap(this + PMDM_NEWLY_ADDED_ITEM + ITEM_EQUIPPED), bool::encode(false)),
            (wrap(this + PMDM_NEWLY_ADDED_ITEM + ITEM_IN_INVENTORY), bool::encode(false)),
        ]
    }

    /// The stores that end the clearing of the copy of the newest item.
    pub open spec fn reset_tail(this: u64) -> Seq<(u64, Seq<u8>)> {
        seq![
            (wrap(this + PMDM_NEWLY_ADDED_ITEM + ITEM_EFFECT_ID), u32::encode(NO_EFFECT_BITS)),
            (wrap(this + PMDM_NEWLY_ADDED_ITEM + ITEM_EFFECT_LEVEL), u32::encode(0)),
        ]
    }

    /// What `reset_item` gives: the bytes afterwards and the manager as it
    /// then lies at `this`.
    #[verifier::opaque]
    pub open spec fn reset_item_spec(image: Seq<u8>, bytes: Map<int, u8>, this: u64) -> Result<
        (Map<int, u8>, Seq<u8>),
        Error,
    > {
        match run::<PauseMenuDataMgr>(bytes, image, this, Self::reset_head(this)) {
            Err(e) => Err(e),
            Ok((b1, s1)) => match store::<i8>(
                b1,
                ItemName::top_of(PouchItem::name_of(Self::newly_added_item_of(s1))),
                0,
            ) {
                Err(e) => Err(e),
                Ok(b2) => run::<PauseMenuDataMgr>(b2, s1, this, Self::reset_tail(this)),
            },
        }
    }

    /// Clears the copy of the newest item: it is of no kind and no use, its
    /// value is zero, it is neither equipped nor in the inventory, its name
    /// is empty, and it has no effect.
    pub fn reset_item(&mut self, memory: &mut Memory, this: Pointer<Self>) -> (r: Result<(), Error>)
        ensures
            final(memory).wf(),
            match r {
                Ok(()) => Self::reset_item_spec(old(self)@, old(memory).bytes(), this.address)
                    == Ok::<(Map<int, u8>, Seq<u8>), Error>((final(memory).bytes(), final(self)@)),
                Err(e) => Self::reset_item_spec(old(self)@, old(memory).bytes(), this.address)
                    == Err::<(Map<int, u8>, Seq<u8>), Error>(e),
            },
    {
        reveal(PauseMenuDataMgr::reset_item_spec);
        if let Err(e) = self.reset_begin(memory, this) {
            return Err(e);
        }
        if let Err(e) = self.newly_added_item().name().clear(memory) {
            return Err(e);
        }
        self.reset_end(memory, this)
    }

    /// Makes the stores that begin the clearing of the copy of the newest
    /// item.
    fn reset_begin(&mut self, memory: &mut Memory, this: Pointer<Self>) -> (r: Result<(), Error>)
        ensures
            final(memory).wf(),
            match r {
                Ok(()) => run::<PauseMenuDataMgr>(
                    old(memory).bytes(),
                    old(self)@,
                    this.address,
                    Self::reset_head(this.address),
                ) == Ok::<(Map<int, u8>, Seq<u8>), Error>((final(memory).bytes(), final(self)@)),
                Err(e) => run::<PauseMenuDataMgr>(
                    old(memory).bytes(),
                    old(self)@,
                    this.address,
                    Self::reset_head(this.address),
                ) == Err::<(Map<int, u8>, Seq<u8>), Error>(e),
            },
    {
        let at = this.address;
        let item = PMDM_NEWLY_ADDED_ITEM;
        let mut head = new_script();
        push_store(&mut head, shifted(at, (item + ITEM_ITEM_TYPE) as i64), &PouchItemType::Invalid);
        push_store(&mut head, shifted(at, (item + ITEM_ITEM_USE) as i64), &ItemUse::Invalid);
        push_store(&mut head, shifted(at, (item + ITEM_VALUE) as i64), &0i32);
        push_store(&mut head, shifted(at, (item + ITEM_EQUIPPED) as i64), &false);
        push_store(&mut head, shifted(at, (item + ITEM_IN_INVENTORY) as i64), &false);
        assert(stores_of(head@) == Self::reset_head(at));
        run_stores(memory, self, &this, &head)
    }

    /// Makes the stores that end the clearing of the copy of the newest item.
    fn reset_end(&mut self, memory: &mut Memory, this: Pointer<Self>) -> (r: Result<(), Error>)
        ensures
            final(memory).wf(),
            match r {
                Ok(()) => run::<PauseMenuDataMgr>(
                    old(memory).bytes(),
                    old(self)@,
                    this.address,
                    Self::reset_tail(this.address),
                ) == Ok::<(Map<int, u8>, Seq<u8>), Error>((final(memory).bytes(), final(self)@)),
                Err(e) => run::<PauseMenuDataMgr>(
                    old(memory).bytes(),
                    old(self)@,
                    this.address,
                    Self::reset_tail(this.address),
                ) == Err::<(Map<int, u8>, Seq<u8>), Error>(e),
            },
    {
        let at = this.address;
        let item = PMDM_NEWLY_ADDED_ITEM;
        let mut tail = new_script();
        push_store(&mut tail, shifted(at, (item + ITEM_EFFECT_ID) as i64), &NO_EFFECT_BITS);
        push_store(&mut tail, shifted(at, (item + ITEM_EFFECT_LEVEL) as i64), &0u32);
        assert(stores_of(tail@) == Self::reset_tail(at));
        run_stores(memory, self, &this, &tail)
    }

    /// The stores that make the manager forget the newest item.
    pub open spec fn forget_script(this: u64) -> Seq<(u64, Seq<u8>)> {
        seq![
            (wrap(this + PMDM_LAST_ADDED_ITEM), Pointer::<u8>::encode(0)),
            (wrap(this + PMDM_ITEM_444F0), Pointer::<u8>::encode(0)),
            (wrap(this + PMDM_WORD_444F8), i32::encode(-1i32)),
        ]
    }

    /// What `reset_item_and_pointers` gives.
    pub open spec fn reset_item_and_pointers_spec(image: Seq<u8>, bytes: Map<int, u8>, this: u64) -> Result<
        (Map<int, u8>, Seq<u8>),
        Error,
    > {
        match run::<PauseMenuDataMgr>(bytes, image, this, Self::forget_script(this)) {
            Err(e) => Err(e),
            Ok((b1, s1)) => Self::reset_item_spec(s1, b1, this),
        }
    }

    /// Makes the manager forget the newest item and clears its copy of it.
    pub fn reset_item_and_pointers(&mut self, memory: &mut Memory, this: Pointer<Self>) -> (r:
        Result<(), Error>)
        ensures
            final(memory).wf(),
            match r {
                Ok(()) => Self::reset_item_and_pointers_spec(
                    old(self)@,
                    old(memory).bytes(),
                    this.address,
                ) == Ok::<(Map<int, u8>, Seq<u8>), Error>((final(memory).bytes(), final(self)@)),
                Err(e) => Self::reset_item_and_pointers_spec(
                    old(self)@,
                    old(memory).bytes(),
                    this.address,
                ) == Err::<(Map<int, u8>, Seq<u8>), Error>(e),
            },
    {
        let none: Pointer = Pointer::null();
        let mut script = new_script();
        push_store(&mut script, shifted(this.address, PMDM_LAST_ADDED_ITEM as i64), &none);
        push_store(&mut script, shifted(this.address, PMDM_ITEM_444F0 as i64), &none);
        push_store(&mut script, shifted(this.address, PMDM_WORD_444F8 as i64), &(-1i32));
        assert(stores_of(script@) == Self::forget_script(this.address));
        if let Err(e) = run_stores(memory, self, &this, &script) {
            return Err(e);
        }
        self.reset_item(memory, this)
    }

    /// Reads the manager again from where it lies in memory.
    pub fn sync(&mut self, memory: &Memory, this: Pointer<Self>) -> (r: Result<(), Error>)
        ensures
            match load::<PauseMenuDataMgr>(memory.bytes(), this.address) {
                Ok(image) => r is Ok && final(self)@ == image,
                Err(e) => r == Err::<(), Error>(e) && *final(self) == *old(self),
            },
    {
        self.update(memory, &this)
    }

    /// Walks the list of items in use, to see that it is not broken.
    pub fn traverse_list1(&self, memory: &Memory, this: Pointer<Self>) -> (r: Result<(), Error>)
        ensures
            r == Self::list1_of(self@).traverse_spec(memory.bytes(), wrap(this.address + PMDM_LIST1)),
    {
        self.list1().traverse(memory, Pointer::new(shifted(this.address, PMDM_LIST1 as i64)))
    }

    /// Walks the list of unused slots, to see that it is not broken.
    pub fn traverse_list2(&self, memory: &Memory, this: Pointer<Self>) -> (r: Result<(), Error>)
        ensures
            r == Self::list2_of(self@).traverse_spec(memory.bytes(), wrap(this.address + PMDM_LIST2)),
    {
        self.list2().traverse(memory, Pointer::new(shifted(this.address, PMDM_LIST2 as i64)))
    }

    /// Opens the pause menu: walks the list of items in use and changes
    /// nothing.
    ///
    /// Fails with [`Error::CorruptList`] where the list leads back into
    /// itself before it reaches its sentinel.
    pub fn pause(&self, memory: &Memory, this: Pointer<Self>) -> (r: Result<(), Error>)
        ensures
            r == Self::list1_of(self@).traverse_spec(memory.bytes(), wrap(this.address + PMDM_LIST1)),
    {
        self.traverse_list1(memory, this)
    }

    /// Takes the item at `item` out of the inventory while the game is
    /// paused: it stays in its slot and in the list, and shows no more.
    pub fn drop(&mut self, memory: &mut Memory, this: Pointer<Self>, item: Pointer<PouchItem>) -> (r:
        Result<(), Error>)
        ensures
            final(memory).wf(),
            match r {
                Ok(()) => refreshed::<bool, PauseMenuDataMgr>(
                    old(memory).bytes(),
                    wrap(item.address + ITEM_IN_INVENTORY),
                    false,
                    this.address,
                ) == Ok::<(Map<int, u8>, Seq<u8>), Error>((final(memory).bytes(), final(self)@)),
                Err(e) => refreshed::<bool, PauseMenuDataMgr>(
                    old(memory).bytes(),
                    wrap(item.address + ITEM_IN_INVENTORY),
                    false,
                    this.address,
                ) == Err::<(Map<int, u8>, Seq<u8>), Error>(e),
            },
    {
        write_refresh(memory, shifted(item.address, ITEM_IN_INVENTORY as i64), false, self, &this)
    }

    /// Gives the item at `item` the value `value`: a weapon wears down, or
    /// an arrow is shot.
    pub fn set_value(
        &mut self,
        memory: &mut Memory,
        this: Pointer<Self>,
        item: Pointer<PouchItem>,
        value: i32,
    ) -> (r: Result<(), Error>)
        ensures
            final(memory).wf(),
            match r {
                Ok(()) => refreshed::<i32, PauseMenuDataMgr>(
                    old(memory).bytes(),
                    wrap(item.address + ITEM_VALUE),
                    value,
                    this.address,
                ) == Ok::<(Map<int, u8>, Seq<u8>), Error>((final(memory).bytes(), final(self)@)),
                Err(e) => refreshed::<i32, PauseMenuDataMgr>(
                    old(memory).bytes(),
                    wrap(item.address + ITEM_VALUE),
                    value,
                    this.address,
                ) == Err::<(Map<int, u8>, Seq<u8>), Error>(e),
            },
    {
        write_refresh(memory, shifted(item.address, ITEM_VALUE as i64), value, self, &this)
    }

    /// Equips the item at `item`.
    pub fn equip(&mut self, memory: &mut Memory, this: Pointer<Self>, item: Pointer<PouchItem>) -> (r:
        Result<(), Error>)
        ensures
            final(memory).wf(),
            match r {
                Ok(()) => refreshed::<bool, PauseMenuDataMgr>(
                    old(memory).bytes(),
                    wrap(item.address + ITEM_EQUIPPED),
                    true,
                    this.address,
                ) == Ok::<(Map<int, u8>, Seq<u8>), Error>((final(memory).bytes(), final(self)@)),
                Err(e) => refreshed::<bool, PauseMenuDataMgr>(
                    old(memory).bytes(),
                    wrap(item.address + ITEM_EQUIPPED),
                    true,
                    this.address,
                ) == Err::<(Map<int, u8>, Seq<u8>), Error>(e),
            },
    {
        write_refresh(memory, shifted(item.address, ITEM_EQUIPPED as i64), true, self, &this)
    }

    /// Takes the item at `item` off.
    pub fn unequip(&mut self, memory: &mut Memory, this: Pointer<Self>, item: Pointer<PouchItem>) -> (r:
        Result<(), Error>)
        ensures
            final(memory).wf(),
            match r {
                Ok(()) => refreshed::<bool, PauseMenuDataMgr>(
                    old(memory).bytes(),
                    wrap(item.address + ITEM_EQUIPPED),
                    false,
                    this.address,
                ) == Ok::<(Map<int, u8>, Seq<u8>), Error>((final(memory).bytes(), final(self)@)),
                Err(e) => refreshed::<bool, PauseMenuDataMgr>(
                    old(memory).bytes(),
                    wrap(item.address + ITEM_EQUIPPED),
                    false,
                    this.address,
                ) == Err::<(Map<int, u8>, Seq<u8>), Error>(e),
            },
    {
        write_refresh(memory, shifted(item.address, ITEM_EQUIPPED as i64), false, self, &this)
    }

    /// The count that is `by` more than `count`, in 32 bits.
    pub open spec fn moved(count: i32, by: int) -> i32 {
        let sum = (count + by) % 0x1_0000_0000;
        if sum >= 0x8000_0000 {
            (sum - 0x1_0000_0000) as i32
        } else {
            sum as i32
        }
    }

    /// The stores that move `num` slots from the list of items in use to the
    /// list of unused slots, by their counts alone.
    pub open spec fn offset_script(image: Seq<u8>, this: u64, num: u32) -> Seq<(u64, Seq<u8>)> {
        seq![
            (
                wrap(this + PMDM_LIST1 + LIST_COUNT),
                i32::encode(Self::moved(Self::list1_of(image).count, -(num as int))),
            ),
            (
                wrap(this + PMDM_LIST2 + LIST_COUNT),
                i32::encode(Self::moved(Self::list2_of(image).count, num as int)),
            ),
        ]
    }

    /// Moves `num` slots from the list of items in use to the list of unused
    /// slots, by their counts alone: no element changes its list.
    pub fn offset(&mut self, memory: &mut Memory, this: Pointer<Self>, num: u32) -> (r: Result<
        (),
        Error,
    >)
        ensures
            final(memory).wf(),
            match r {
                Ok(()) => run::<PauseMenuDataMgr>(
                    old(memory).bytes(),
                    old(self)@,
                    this.address,
                    Self::offset_script(old(self)@, this.address, num),
                ) == Ok::<(Map<int, u8>, Seq<u8>), Error>((final(memory).bytes(), final(self)@)),
                Err(e) => run::<PauseMenuDataMgr>(
                    old(memory).bytes(),
                    old(self)@,
                    this.address,
                    Self::offset_script(old(self)@, this.address, num),
                ) == Err::<(Map<int, u8>, Seq<u8>), Error>(e),
            },
    {
        let by =
            #[verifier::truncate]
            (num as i32);
        assert(by == Self::moved(0, num as int)) by (bit_vector)
            requires
                by == (num as i32),
        ;
        let fewer = self.list1().count.wrapping_sub(by);
        let more = self.list2().count.wrapping_add(by);
        let mut script = new_script();
        push_store(&mut script, shifted(this.address, (PMDM_LIST1 as u64 + LIST_COUNT) as i64), &fewer);
        push_store(&mut script, shifted(this.address, (PMDM_LIST2 as u64 + LIST_COUNT) as i64), &more);
        assert(stores_of(script@) == Self::offset_script(self@, this.address, num));
        run_stores(memory, self, &this, &script)
    }

    /// What the manager holds as a save file holds it. The game's own
    /// format is not part of this library: the file is empty.
    pub fn save(&self, memory: &Memory, this: Pointer<Self>) -> (file: GameData)
        ensures
            file@.len() == 0,
    {
        Vec::new()
    }

    /// Takes over what a save file holds. The game's own format is not part
    /// of this library: the manager is read again from memory.
    pub fn load(&mut self, memory: &Memory, this: Pointer<Self>, file: GameData) -> (r: Result<
        (),
        Error,
    >)
        ensures
            match load::<PauseMenuDataMgr>(memory.bytes(), this.address) {
                Ok(image) => r is Ok && final(self)@ == image,
                Err(e) => r == Err::<(), Error>(e) && *final(self) == *old(self),
            },
    {
        self.update(memory, &this)
    }
}

/// Whether two texts hold the same bytes.
pub fn same_text(a: &str, b: &str) -> (same: bool)
    ensures
        same == (a.spec_bytes() == b.spec_bytes()),
{
    let left = a.as_bytes();
    let right = b.as_bytes();
    if left.len() != right.len() {
        return false;
    }
    let mut i: usize = 0;
    while i < left.len()
        invariant
            0 <= i <= left@.len(),
            left@.len() == right@.len(),
            left@ == a.spec_bytes(),
            right@ == b.spec_bytes(),
            forall|j: int| 0 <= j < i ==> left@[j] == right@[j],
        decreases left.len() - i,
    {
        if left[i] != right[i] {
            return false;
        }
        i += 1;
    }
    assert(left@ =~= right@);
    true
}

/// The name of the sword of which the pouch holds one at most.
pub open spec fn master_sword() -> Seq<u8> {
    "Weapon_Sword_070".spec_bytes()
}

/// Whether `name` is the name of the sword of which the pouch holds one at
/// most.
pub fn is_master_sword(name: &str) -> (b: bool)
    ensures
        b == (name.spec_bytes() == master_sword()),
{
    same_text(name, "Weapon_Sword_070")
}

/// Whether `name` is the name of a key item of which the pouch may hold
/// more than one.
pub open spec fn repeatable(name: Seq<u8>) -> bool {
    ||| name == "Obj_DLC_HeroSeal_Gerudo".spec_bytes()
    ||| name == "Obj_DLC_HeroSeal_Goron".spec_bytes()
    ||| name == "Obj_DLC_HeroSeal_Rito".spec_bytes()
    ||| name == "Obj_DLC_HeroSeal_Zora".spec_bytes()
    ||| name == "Obj_DLC_HeroSoul_Gerudo".spec_bytes()
    ||| name == "Obj_DLC_HeroSoul_Goron".spec_bytes()
    ||| name == "Obj_DLC_HeroSoul_Rito".spec_bytes()
    ||| name == "Obj_DLC_HeroSoul_Zora".spec_bytes()
    ||| name == "Obj_DungeonClearSeal".spec_bytes()
    ||| name == "Obj_KorokNuts".spec_bytes()
}

/// Whether `name` is the name of a key item of which the pouch may hold
/// more than one.
pub fn is_repeatable(name: &str) -> (b: bool)
    ensures
        b == repeatable(name.spec_bytes()),
{
    same_text(name, "Obj_DLC_HeroSeal_Gerudo") || same_text(name, "Obj_DLC_HeroSeal_Goron")
        || same_text(name, "Obj_DLC_HeroSeal_Rito") || same_text(name, "Obj_DLC_HeroSeal_Zora")
        || same_text(name, "Obj_DLC_HeroSoul_Gerudo") || same_text(name, "Obj_DLC_HeroSoul_Goron")
        || same_text(name, "Obj_DLC_HeroSoul_Rito") || same_text(name, "Obj_DLC_HeroSoul_Zora")
        || same_text(name, "Obj_DungeonClearSeal") || same_text(name, "Obj_KorokNuts")
}

/// The most items that a run of items of one kind can hold: the number of
/// slots of the pouch.
pub const RUN_LIMIT: usize = 420;

/// No first item for any of the seven categories.
pub open spec fn no_firsts() -> Seq<u64> {
    Seq::new(7, |c: int| 0u64)
}

impl PauseMenuDataMgr {
    /// The first items of the categories, once the item at `at`, of the
    /// kind `kind`, has been seen: it is the first of its category where
    /// none was seen before.
    pub open spec fn noted(firsts: Seq<u64>, kind: PouchItemType, at: u64) -> Seq<u64> {
        let c = kind.category_spec().raw_spec() as int;
        if c < 7 && firsts[c] == 0 {
            firsts.update(c, at)
        } else {
            firsts
        }
    }

    /// The first items of the categories, as a walk through the list of
    /// header `header` at `list` finds them, from the item at `at` on and
    /// through at most `left` items, where `firsts` were found before.
    pub open spec fn firsts_spec(
        header: OffsetList<PouchItem>,
        bytes: Map<int, u8>,
        list: u64,
        at: u64,
        firsts: Seq<u64>,
        left: nat,
    ) -> Result<Seq<u64>, Error>
        decreases left,
    {
        if at == 0 {
            Ok(firsts)
        } else if left == 0 {
            Err(Error::CorruptList { node: at })
        } else {
            match load::<PouchItemType>(bytes, wrap(at + ITEM_ITEM_TYPE)) {
                Err(e) => Err(e),
                Ok(kind) => match header.next_spec(bytes, list, at) {
                    Err(e) => Err(e),
                    Ok(next) => Self::firsts_spec(
                        header,
                        bytes,
                        list,
                        next,
                        Self::noted(firsts, kind, at),
                        (left - 1) as nat,
                    ),
                },
            }
        }
    }

    /// The first item of each category in the list of items in use, or null
    /// for a category without an item.
    pub open spec fn first_items_spec(image: Seq<u8>, bytes: Map<int, u8>, this: u64) -> Result<
        Seq<u64>,
        Error,
    > {
        match Self::list1_of(image).nth_spec(bytes, 0) {
            Err(e) => Err(e),
            Ok(first) => Self::firsts_spec(
                Self::list1_of(image),
                bytes,
                wrap(this + PMDM_LIST1),
                first,
                no_firsts(),
                RUN_LIMIT as nat,
            ),
        }
    }

    /// The address of the cell that holds the first item of the category of
    /// number `c`.
    pub open spec fn head_cell(this: u64, c: int) -> u64 {
        wrap(this + PMDM_TABS + 8 * c)
    }

    /// Store `k` of the stores that note the first items `firsts`: for each
    /// category in turn, first the item in the category's cell, then in the
    /// category's head the address of the cell, or null where the category
    /// has no item.
    pub open spec fn head_store(this: u64, firsts: Seq<u64>, k: int) -> (u64, Seq<u8>) {
        let c = k / 2;
        if k % 2 == 0 {
            (Self::head_cell(this, c), Pointer::<u8>::encode(firsts[c]))
        } else {
            (
                wrap(this + PMDM_LIST_HEADS + 8 * c),
                Pointer::<u8>::encode(
                    if firsts[c] == 0 {
                        0
                    } else {
                        Self::head_cell(this, c)
                    },
                ),
            )
        }
    }

    /// The stores that note the first items `firsts` of the seven
    /// categories.
    pub open spec fn heads_script(this: u64, firsts: Seq<u64>) -> Seq<(u64, Seq<u8>)> {
        Seq::new(14, |k: int| Self::head_store(this, firsts, k))
    }

    /// What `update_list_heads` gives: the bytes afterwards and the manager
    /// as it then lies at `this`.
    pub open spec fn list_heads_spec(image: Seq<u8>, bytes: Map<int, u8>, this: u64) -> Result<
        (Map<int, u8>, Seq<u8>),
        Error,
    > {
        match Self::first_items_spec(image, bytes, this) {
            Err(e) => Err(e),
            Ok(firsts) => run::<PauseMenuDataMgr>(
                bytes,
                image,
                this,
                Self::heads_script(this, firsts),
            ),
        }
    }

    /// Walks the list of items in use and finds the first item of each
    /// category. A list of more items than the manager has slots is broken.
    fn first_items(&self, memory: &Memory, this: Pointer<Self>) -> (r: Result<Vec<u64>, Error>)
        ensures
            match r {
                Ok(firsts) => firsts@.len() == 7 && Self::first_items_spec(
                    self@,
                    memory.bytes(),
                    this.address,
                ) == Ok::<Seq<u64>, Error>(firsts@),
                Err(e) => Self::first_items_spec(self@, memory.bytes(), this.address) == Err::<
                    Seq<u64>,
                    Error,
                >(e),
            },
    {
        let header = self.list1();
        let list: Pointer<OffsetList<PouchItem>> = Pointer::new(
            shifted(this.address, PMDM_LIST1 as i64),
        );
        let mut at = match header.nth(memory, 0) {
            Err(e) => {
                return Err(e);
            },
            Ok(first) => first,
        };
        let mut firsts: Vec<u64> = Vec::new();
        let mut c: usize = 0;
        while c < 7
            invariant
                c <= 7,
                firsts@ =~= Seq::new(c as nat, |i: int| 0u64),
            decreases 7 - c,
        {
            firsts.push(0u64);
            c += 1;
        }
        assert(firsts@ =~= no_firsts());
        let ghost whole = Self::first_items_spec(self@, memory.bytes(), this.address);
        let mut left: usize = RUN_LIMIT;
        while !at.is_null()
            invariant
                firsts@.len() == 7,
                header@ == Self::list1_of(self@),
                list.address == wrap(this.address + PMDM_LIST1),
                whole == Self::first_items_spec(self@, memory.bytes(), this.address),
                whole == Self::firsts_spec(
                    header,
                    memory.bytes(),
                    list.address,
                    at.address,
                    firsts@,
                    left as nat,
                ),
            decreases left,
        {
            if left == 0 {
                return Err(Error::CorruptList { node: at.address });
            }
            let place: Pointer<PouchItemType> = Pointer::new(
                shifted(at.address, ITEM_ITEM_TYPE as i64),
            );
            let kind = match place.read(memory) {
                Err(e) => {
                    return Err(e);
                },
                Ok(kind) => *kind,
            };
            let next = match header.next(memory, list, at) {
                Err(e) => {
                    return Err(e);
                },
                Ok(next) => next,
            };
            let category = kind.category().raw();
            if category < 7 {
                let index = category as usize;
                if firsts[index] == 0 {
                    firsts.set(index, at.address);
                }
            }
            at = next;
            left -= 1;
        }
        Ok(firsts)
    }

    /// Notes the first item of each category of the list of items in use:
    /// the item in the category's cell, and in the category's head the
    /// address of that cell, or null where the category has no item. After
    /// each store the manager is read again.
    pub fn update_list_heads(&mut self, memory: &mut Memory, this: Pointer<Self>) -> (r: Result<
        (),
        Error,
    >)
        ensures
            final(memory).wf(),
            match r {
                Ok(()) => Self::list_heads_spec(old(self)@, old(memory).bytes(), this.address)
                    == Ok::<(Map<int, u8>, Seq<u8>), Error>((final(memory).bytes(), final(self)@)),
                Err(e) => Self::list_heads_spec(old(self)@, old(memory).bytes(), this.address)
                    == Err::<(Map<int, u8>, Seq<u8>), Error>(e),
            },
    {
        proof {
            use_type_invariant(&*memory);
        }
        let firsts = match self.first_items(memory, this) {
            Err(e) => {
                return Err(e);
            },
            Ok(firsts) => firsts,
        };
        let mut script = new_script();
        let mut c: usize = 0;
        while c < 7
            invariant
                c <= 7,
                firsts@.len() == 7,
                stores_of(script@) =~= Seq::new(
                    (2 * c) as nat,
                    |k: int| Self::head_store(this.address, firsts@, k),
                ),
            decreases 7 - c,
        {
            let cell = shifted(this.address, (PMDM_TABS + 8 * c) as i64);
            let first: Pointer = Pointer::new(firsts[c]);
            let head: Pointer = if firsts[c] == 0 {
                Pointer::null()
            } else {
                Pointer::new(cell)
            };
            push_store(&mut script, cell, &first);
            push_store(&mut script, shifted(this.address, (PMDM_LIST_HEADS + 8 * c) as i64), &head);
            c += 1;
        }
        assert(stores_of(script@) =~= Self::heads_script(this.address, firsts@));
        run_stores(memory, self, &this, &script)
    }
}

impl PauseMenuDataMgr {
    /// What `remove` gives for the item at `item`: the bytes afterwards and
    /// the manager as it then lies at `this`.
    #[verifier::opaque]
    pub open spec fn remove_spec(image: Seq<u8>, bytes: Map<int, u8>, this: u64, item: u64) -> Result<
        (Map<int, u8>, Seq<u8>),
        Error,
    > {
        let first = if Self::item_444f0_of(image) == item {
            refreshed::<Pointer, PauseMenuDataMgr>(bytes, wrap(this + PMDM_ITEM_444F0), 0, this)
        } else {
            Ok((bytes, image))
        };
        match first {
            Err(e) => Err(e),
            Ok((b1, s1)) => {
                let second = if Self::last_added_item_of(s1) == item {
                    refreshed::<Pointer, PauseMenuDataMgr>(
                        b1,
                        wrap(this + PMDM_LAST_ADDED_ITEM),
                        0,
                        this,
                    )
                } else {
                    first
                };
                match second {
                    Err(e) => Err(e),
                    Ok((b2, s2)) => match Self::list1_of(s2).erase_spec(
                        b2,
                        wrap(this + PMDM_LIST1),
                        item,
                    ) {
                        Err(e) => Err(e),
                        Ok((b3, _)) => match load::<PauseMenuDataMgr>(b3, this) {
                            Err(e) => Err(e),
                            Ok(s3) => Ok((b3, s3)),
                        },
                    },
                }
            },
        }
    }

    /// Takes the item at `item` out of the list of items in use, while the
    /// game runs: what the manager remembers of the item is forgotten, the
    /// item is erased from the list, and the manager is read again.
    pub fn remove(&mut self, memory: &mut Memory, this: Pointer<Self>, item: Pointer<PouchItem>) -> (r:
        Result<(), Error>)
        ensures
            final(memory).wf(),
            match r {
                Ok(()) => Self::remove_spec(old(self)@, old(memory).bytes(), this.address, item.address)
                    == Ok::<(Map<int, u8>, Seq<u8>), Error>((final(memory).bytes(), final(self)@)),
                Err(e) => Self::remove_spec(old(self)@, old(memory).bytes(), this.address, item.address)
                    == Err::<(Map<int, u8>, Seq<u8>), Error>(e),
            },
    {
        reveal(PauseMenuDataMgr::remove_spec);
        proof {
            use_type_invariant(&*memory);
        }
        let none: Pointer = Pointer::null();
        if self.item_444f0() == item {
            if let Err(e) = write_refresh(
                memory,
                shifted(this.address, PMDM_ITEM_444F0 as i64),
                none,
                self,
                &this,
            ) {
                return Err(e);
            }
        }
        if self.last_added_item() == item {
            if let Err(e) = write_refresh(
                memory,
                shifted(this.address, PMDM_LAST_ADDED_ITEM as i64),
                none,
                self,
                &this,
            ) {
                return Err(e);
            }
        }
        let mut list1 = self.list1();
        if let Err(e) = list1.erase(
            memory,
            Pointer::new(shifted(this.address, PMDM_LIST1 as i64)),
            item,
        ) {
            return Err(e);
        }
        self.sync(memory, this)
    }

    /// What `update_after_adding_item` gives.
    #[verifier::opaque]
    pub open spec fn after_adding_spec(image: Seq<u8>, bytes: Map<int, u8>, this: u64) -> Result<
        (Map<int, u8>, Seq<u8>),
        Error,
    > {
        if Self::list1_of(image).count == 0 {
            Ok((bytes, image))
        } else {
            match refreshed::<PouchCategory, PauseMenuDataMgr>(
                bytes,
                wrap(this + PMDM_CATEGORY_TO_SORT),
                PouchCategory::Invalid,
                this,
            ) {
                Err(e) => Err(e),
                Ok((b1, _)) => match load::<OffsetList<PouchItem>>(b1, wrap(this + PMDM_LIST1)) {
                    Err(e) => Err(e),
                    Ok(list1) => match list1.sort_spec(PouchOrder, b1, wrap(this + PMDM_LIST1)) {
                        Err(e) => Err(e),
                        Ok((b2, _)) => match load::<PauseMenuDataMgr>(b2, this) {
                            Err(e) => Err(e),
                            Ok(s2) => Self::list_heads_spec(s2, b2, this),
                        },
                    },
                },
            }
        }
    }

    /// Puts the list of items in use in order after an item has been added
    /// to it, and notes the first item of each category. Nothing is done
    /// where the list counts no item.
    pub fn update_after_adding_item(&mut self, memory: &mut Memory, this: Pointer<Self>) -> (r:
        Result<(), Error>)
        ensures
            final(memory).wf(),
            match r {
                Ok(()) => Self::after_adding_spec(old(self)@, old(memory).bytes(), this.address)
                    == Ok::<(Map<int, u8>, Seq<u8>), Error>((final(memory).bytes(), final(self)@)),
                Err(e) => Self::after_adding_spec(old(self)@, old(memory).bytes(), this.address)
                    == Err::<(Map<int, u8>, Seq<u8>), Error>(e),
            },
    {
        reveal(PauseMenuDataMgr::after_adding_spec);
        proof {
            use_type_invariant(&*memory);
        }
        if self.list1().count == 0 {
            return Ok(());
        }
        if let Err(e) = write_refresh(
            memory,
            shifted(this.address, PMDM_CATEGORY_TO_SORT as i64),
            PouchCategory::Invalid,
            self,
            &this,
        ) {
            return Err(e);
        }
        let place: Pointer<OffsetList<PouchItem>> = Pointer::new(
            shifted(this.address, PMDM_LIST1 as i64),
        );
        let mut list1 = match place.read(memory) {
            Err(e) => {
                return Err(e);
            },
            Ok(list1) => *list1,
        };
        if let Err(e) = list1.sort(memory, place, &PouchOrder) {
            return Err(e);
        }
        if let Err(e) = self.sync(memory, this) {
            return Err(e);
        }
        self.update_list_heads(memory, this)
    }

    /// Whether the name of the item of image `item`, which lies at `at`,
    /// is `name`, where the item is in the inventory: the bytes afterwards
    /// and the answer.
    pub open spec fn named_spec(item: Seq<u8>, bytes: Map<int, u8>, at: u64, name: Seq<u8>) -> Result<
        (Map<int, u8>, bool),
        Error,
    > {
        if !PouchItem::in_inventory_of(item) {
            Ok((bytes, false))
        } else {
            match ItemName::is_equal_str_spec(
                PouchItem::name_of(item),
                bytes,
                wrap(at + ITEM_NAME),
                name,
            ) {
                Err(e) => Err(e),
                Ok((after, _, equal)) => Ok((after, equal)),
            }
        }
    }

    /// Whether the item `item`, which lies at `at`, is in the inventory and
    /// has the name `name`.
    fn named(memory: &mut Memory, item: &PouchItem, at: Pointer<PouchItem>, name: &str) -> (r: Result<
        bool,
        Error,
    >)
        ensures
            final(memory).wf(),
            match r {
                Ok(equal) => Self::named_spec(item@, old(memory).bytes(), at.address, name.spec_bytes())
                    == Ok::<(Map<int, u8>, bool), Error>((final(memory).bytes(), equal)),
                Err(e) => Self::named_spec(item@, old(memory).bytes(), at.address, name.spec_bytes())
                    == Err::<(Map<int, u8>, bool), Error>(e),
            },
    {
        proof {
            use_type_invariant(&*memory);
        }
        if !item.in_inventory() {
            return Ok(false);
        }
        let mut text = item.name();
        text.is_equal_str(memory, Pointer::new(shifted(at.address, ITEM_NAME as i64)), name)
    }

    /// What looking at the item at `at` gives, in the search for an item of
    /// the kind `kind` and the name `name`: the bytes afterwards, the
    /// manager as it was read last, whether the search ends here and then
    /// with what finding, and the item to look at next. `exhausted` says
    /// that the search has looked at as many items as the pouch has slots.
    #[verifier::opaque]
    pub open spec fn look_spec(
        image: Seq<u8>,
        bytes: Map<int, u8>,
        this: u64,
        at: u64,
        kind: PouchItemType,
        name: Seq<u8>,
        exhausted: bool,
    ) -> Result<(Map<int, u8>, Seq<u8>, Option<bool>, u64), Error> {
        if at == 0 {
            Ok((bytes, image, Some(false), at))
        } else {
            match load::<PouchItem>(bytes, at) {
                Err(e) => Err(e),
                Ok(item) => if PouchItem::item_type_of(item) != kind {
                    Ok((bytes, image, Some(false), at))
                } else if exhausted {
                    Err(Error::CorruptList { node: at })
                } else {
                    match Self::named_spec(item, bytes, at, name) {
                        Err(e) => Err(e),
                        Ok((b1, equal)) => if equal {
                            Ok((b1, image, Some(true), at))
                        } else {
                            match load::<PauseMenuDataMgr>(b1, this) {
                                Err(e) => Err(e),
                                Ok(fresh) => match Self::list1_of(fresh).next_spec(
                                    b1,
                                    wrap(this + PMDM_LIST1),
                                    at,
                                ) {
                                    Err(e) => Err(e),
                                    Ok(next) => Ok((b1, fresh, None, next)),
                                },
                            }
                        },
                    }
                },
            }
        }
    }

    /// What the search for an item of the kind `kind` and the name `name`
    /// gives, from the item at `at` on and through at most `left` items: the
    /// bytes afterwards, the manager as it was read last, and the item that
    /// was found, or null.
    pub open spec fn find_spec(
        image: Seq<u8>,
        bytes: Map<int, u8>,
        this: u64,
        at: u64,
        kind: PouchItemType,
        name: Seq<u8>,
        left: nat,
    ) -> Result<(Map<int, u8>, Seq<u8>, u64), Error>
        decreases left,
    {
        match Self::look_spec(image, bytes, this, at, kind, name, left == 0) {
            Err(e) => Err(e),
            Ok((after, fresh, Some(found), _)) => Ok(
                (
                    after,
                    fresh,
                    if found {
                        at
                    } else {
                        0
                    },
                ),
            ),
            Ok((after, fresh, None, next)) => if left == 0 {
                Err(Error::CorruptList { node: at })
            } else {
                Self::find_spec(fresh, after, this, next, kind, name, (left - 1) as nat)
            },
        }
    }

    /// Looks at the item at `at` in the search for an item of the kind
    /// `kind` and the name `name` that is in the inventory.
    fn look(
        &mut self,
        memory: &mut Memory,
        this: Pointer<Self>,
        at: Pointer<PouchItem>,
        kind: PouchItemType,
        name: &str,
        exhausted: bool,
    ) -> (r: Result<(Option<bool>, Pointer<PouchItem>), Error>)
        ensures
            final(memory).wf(),
            match r {
                Ok((verdict, next)) => Self::look_spec(
                    old(self)@,
                    old(memory).bytes(),
                    this.address,
                    at.address,
                    kind,
                    name.spec_bytes(),
                    exhausted,
                ) == Ok::<(Map<int, u8>, Seq<u8>, Option<bool>, u64), Error>(
                    (final(memory).bytes(), final(self)@, verdict, next.address),
                ),
                Err(e) => Self::look_spec(
                    old(self)@,
                    old(memory).bytes(),
                    this.address,
                    at.address,
                    kind,
                    name.spec_bytes(),
                    exhausted,
                ) == Err::<(Map<int, u8>, Seq<u8>, Option<bool>, u64), Error>(e),
            },
    {
        reveal(PauseMenuDataMgr::look_spec);
        proof {
            use_type_invariant(&*memory);
        }
        if at.is_null() {
            return Ok((Some(false), at));
        }
        let item = match at.read(memory) {
            Err(e) => {
                return Err(e);
            },
            Ok(item) => item,
        };
        if item.item_type() != kind {
            return Ok((Some(false), at));
        }
        if exhausted {
            return Err(Error::CorruptList { node: at.address });
        }
        match Self::named(memory, &item, at, name) {
            Err(e) => {
                return Err(e);
            },
            Ok(equal) => {
                if equal {
                    return Ok((Some(true), at));
                }
            },
        }
        if let Err(e) = self.sync(memory, this) {
            return Err(e);
        }
        match self.list1().next(memory, Pointer::new(shifted(this.address, PMDM_LIST1 as i64)), at) {
            Err(e) => Err(e),
            Ok(next) => Ok((None, next)),
        }
    }

    /// Looks for an item of the kind `kind` and the name `name` that is in
    /// the inventory, from the item at `at` on, as far as items of that kind
    /// follow one another. Gives the item, or null where there is none.
    ///
    /// Fails with [`Error::CorruptList`] where more items of the kind follow
    /// one another than the pouch has slots.
    pub fn find(
        &mut self,
        memory: &mut Memory,
        this: Pointer<Self>,
        at: Pointer<PouchItem>,
        kind: PouchItemType,
        name: &str,
    ) -> (r: Result<Pointer<PouchItem>, Error>)
        ensures
            final(memory).wf(),
            match r {
                Ok(found) => Self::find_spec(
                    old(self)@,
                    old(memory).bytes(),
                    this.address,
                    at.address,
                    kind,
                    name.spec_bytes(),
                    RUN_LIMIT as nat,
                ) == Ok::<(Map<int, u8>, Seq<u8>, u64), Error>(
                    (final(memory).bytes(), final(self)@, found.address),
                ),
                Err(e) => Self::find_spec(
                    old(self)@,
                    old(memory).bytes(),
                    this.address,
                    at.address,
                    kind,
                    name.spec_bytes(),
                    RUN_LIMIT as nat,
                ) == Err::<(Map<int, u8>, Seq<u8>, u64), Error>(e),
            },
    {
        proof {
            use_type_invariant(&*memory);
        }
        let mut current = at;
        let mut left: usize = RUN_LIMIT;
        loop
            invariant
                memory.wf(),
                left <= RUN_LIMIT,
                Self::find_spec(
                    old(self)@,
                    old(memory).bytes(),
                    this.address,
                    at.address,
                    kind,
                    name.spec_bytes(),
                    RUN_LIMIT as nat,
                ) == Self::find_spec(
                    self@,
                    memory.bytes(),
                    this.address,
                    current.address,
                    kind,
                    name.spec_bytes(),
                    left as nat,
                ),
            decreases left,
        {
            let ghost image = self@;
            let ghost bytes = memory.bytes();
            let outcome = self.look(memory, this, current, kind, name, left == 0);
            assert(Self::find_spec(image, bytes, this.address, current.address, kind, name.spec_bytes(), left as nat)
                == match Self::look_spec(
                image,
                bytes,
                this.address,
                current.address,
                kind,
                name.spec_bytes(),
                left == 0,
            ) {
                Err(e) => Err::<(Map<int, u8>, Seq<u8>, u64), Error>(e),
                Ok((after, fresh, Some(found), _)) => Ok(
                    (
                        after,
                        fresh,
                        if found {
                            current.address
                        } else {
                            0
                        },
                    ),
                ),
                Ok((after, fresh, None, next)) => if left == 0 {
                    Err(Error::CorruptList { node: current.address })
                } else {
                    Self::find_spec(
                        fresh,
                        after,
                        this.address,
                        next,
                        kind,
                        name.spec_bytes(),
                        (left - 1) as nat,
                    )
                },
            });
            match outcome {
                Err(e) => {
                    return Err(e);
                },
                Ok((Some(found), _)) => {
                    if found {
                        return Ok(current);
                    } else {
                        return Ok(Pointer::null());
                    }
                },
                Ok((None, next)) => {
                    if left == 0 {
                        return Err(Error::CorruptList { node: current.address });
                    }
                    current = next;
                    left -= 1;
                },
            }
        }
    }
}

impl PauseMenuDataMgr {
    /// The stores that make the item at `item`, whose value was `before`,
    /// new again: its value is zero, it is not equipped, and it is the item
    /// that was added last unless it was worn out.
    pub open spec fn respawn_script(this: u64, item: u64, before: i32) -> Seq<(u64, Seq<u8>)> {
        seq![
            (wrap(item + ITEM_VALUE), i32::encode(0)),
            (wrap(item + ITEM_EQUIPPED), bool::encode(false)),
            (
                wrap(this + PMDM_LAST_ADDED_ITEM),
                Pointer::<u8>::encode(
                    if before > 0 {
                        item
                    } else {
                        0
                    },
                ),
            ),
        ]
    }

    /// What making the item at `item` new again gives: the bytes afterwards
    /// and the manager as it then lies at `this`.
    #[verifier::opaque]
    pub open spec fn respawn_spec(image: Seq<u8>, bytes: Map<int, u8>, this: u64, item: u64) -> Result<
        (Map<int, u8>, Seq<u8>),
        Error,
    > {
        match load::<i32>(bytes, wrap(item + ITEM_VALUE)) {
            Err(e) => Err(e),
            Ok(before) => match run::<PauseMenuDataMgr>(
                bytes,
                image,
                this,
                Self::respawn_script(this, item, before),
            ) {
                Err(e) => Err(e),
                Ok((b1, s1)) => Self::reset_item_spec(s1, b1, this),
            },
        }
    }

    /// Makes the item at `item` new again, as the game does with the sword
    /// of which the pouch holds one at most.
    fn respawn(&mut self, memory: &mut Memory, this: Pointer<Self>, item: Pointer<PouchItem>) -> (r:
        Result<(), Error>)
        ensures
            final(memory).wf(),
            match r {
                Ok(()) => Self::respawn_spec(old(self)@, old(memory).bytes(), this.address, item.address)
                    == Ok::<(Map<int, u8>, Seq<u8>), Error>((final(memory).bytes(), final(self)@)),
                Err(e) => Self::respawn_spec(old(self)@, old(memory).bytes(), this.address, item.address)
                    == Err::<(Map<int, u8>, Seq<u8>), Error>(e),
            },
    {
        reveal(PauseMenuDataMgr::respawn_spec);
        proof {
            use_type_invariant(&*memory);
        }
        let before = match memory.read::<i32>(shifted(item.address, ITEM_VALUE as i64)) {
            Err(e) => {
                return Err(e);
            },
            Ok(before) => *before,
        };
        let newest: Pointer = if before > 0 {
            item.cast()
        } else {
            Pointer::null()
        };
        let mut script = new_script();
        push_store(&mut script, shifted(item.address, ITEM_VALUE as i64), &0i32);
        push_store(&mut script, shifted(item.address, ITEM_EQUIPPED as i64), &false);
        push_store(&mut script, shifted(this.address, PMDM_LAST_ADDED_ITEM as i64), &newest);
        assert(stores_of(script@) == Self::respawn_script(this.address, item.address, before));
        if let Err(e) = run_stores(memory, self, &this, &script) {
            return Err(e);
        }
        self.reset_item(memory, this)
    }

    /// What linking the item at `slot` into the list of items in use, behind
    /// its last item, and reading the manager again gives.
    pub open spec fn link_spec(bytes: Map<int, u8>, this: u64, slot: u64) -> Result<
        (Map<int, u8>, Seq<u8>),
        Error,
    > {
        match load::<OffsetList<PouchItem>>(bytes, wrap(this + PMDM_LIST1)) {
            Err(e) => Err(e),
            Ok(list1) => match list1.push_back_spec(bytes, wrap(this + PMDM_LIST1), slot) {
                Err(e) => Err(e),
                Ok((b1, _)) => match load::<PauseMenuDataMgr>(b1, this) {
                    Err(e) => Err(e),
                    Ok(s1) => Ok((b1, s1)),
                },
            },
        }
    }

    /// What `add` gives for an item of the name `name`, the kind `kind` and
    /// the value `value`: the bytes afterwards and the manager as it was
    /// read last.
    ///
    /// The first of the unused slots is taken out of their list, an item is
    /// built in it and made an item of that name, kind and value, and the
    /// item is linked into the list of items in use, behind its last item.
    /// Without an unused slot nothing is done.
    #[verifier::opaque]
    pub open spec fn add_spec(
        image: Seq<u8>,
        bytes: Map<int, u8>,
        this: u64,
        name: Seq<u8>,
        kind: PouchItemType,
        value: i32,
    ) -> Result<(Map<int, u8>, Seq<u8>), Error> {
        match Self::list2_of(image).nth_spec(bytes, 0) {
            Err(e) => Err(e),
            Ok(slot) => if slot == 0 {
                Ok((bytes, image))
            } else {
                match Self::list2_of(image).erase_spec(bytes, wrap(this + PMDM_LIST2), slot) {
                    Err(e) => Err(e),
                    Ok((b1, _)) => match load::<PouchItem>(b1, slot) {
                        Err(e) => Err(e),
                        Ok(blank) => match PouchItem::ctor_spec(blank, b1, slot) {
                            Err(e) => Err(e),
                            Ok((b2, built)) => match PouchItem::fill_spec(
                                built,
                                b2,
                                slot,
                                name,
                                kind,
                                value,
                            ) {
                                Err(e) => Err(e),
                                Ok((b3, _)) => Self::link_spec(b3, this, slot),
                            },
                        },
                    },
                }
            },
        }
    }

    /// Puts an item of the name `name`, the kind `item_type` and the value
    /// `value` into the first of the unused slots, and links it into the
    /// list of items in use, behind its last item. Without an unused slot
    /// nothing is done.
    pub fn add(
        &mut self,
        memory: &mut Memory,
        this: Pointer<Self>,
        name: &str,
        item_type: PouchItemType,
        value: i32,
    ) -> (r: Result<(), Error>)
        ensures
            final(memory).wf(),
            match r {
                Ok(()) => Self::add_spec(
                    old(self)@,
                    old(memory).bytes(),
                    this.address,
                    name.spec_bytes(),
                    item_type,
                    value,
                ) == Ok::<(Map<int, u8>, Seq<u8>), Error>((final(memory).bytes(), final(self)@)),
                Err(e) => Self::add_spec(
                    old(self)@,
                    old(memory).bytes(),
                    this.address,
                    name.spec_bytes(),
                    item_type,
                    value,
                ) == Err::<(Map<int, u8>, Seq<u8>), Error>(e),
            },
    {
        reveal(PauseMenuDataMgr::add_spec);
        proof {
            use_type_invariant(&*memory);
        }
        let mut list2 = self.list2();
        let slot = match list2.nth(memory, 0) {
            Err(e) => {
                return Err(e);
            },
            Ok(slot) => slot,
        };
        if slot.is_null() {
            return Ok(());
        }
        if let Err(e) = list2.erase(
            memory,
            Pointer::new(shifted(this.address, PMDM_LIST2 as i64)),
            slot,
        ) {
            return Err(e);
        }
        let mut item = match slot.read(memory) {
            Err(e) => {
                return Err(e);
            },
            Ok(item) => *item,
        };
        if let Err(e) = item.ctor(memory, slot) {
            return Err(e);
        }
        if let Err(e) = item.fill(memory, slot, name, item_type, value) {
            return Err(e);
        }
        let place: Pointer<OffsetList<PouchItem>> = Pointer::new(
            shifted(this.address, PMDM_LIST1 as i64),
        );
        let mut list1 = match place.read(memory) {
            Err(e) => {
                return Err(e);
            },
            Ok(list1) => *list1,
        };
        if let Err(e) = list1.push_back(memory, place, slot) {
            return Err(e);
        }
        self.sync(memory, this)
    }

    /// Whether picking up an item of the kind `kind` and the name `name`
    /// first looks for a key item of that name.
    pub open spec fn looks_for_key(kind: PouchItemType, name: Seq<u8>) -> bool {
        kind == PouchItemType::KeyItem && !repeatable(name)
    }

    /// Whether picking up an item of the kind `kind` and the name `name`
    /// first looks for the sword of which the pouch holds one at most.
    pub open spec fn looks_for_sword(kind: PouchItemType, name: Seq<u8>) -> bool {
        !Self::looks_for_key(kind, name) && kind == PouchItemType::Sword && name == master_sword()
    }

    /// What looking for an item that the pouch may hold only once gives:
    /// the bytes afterwards, the manager as it was read last, and the item
    /// that was found, or null.
    #[verifier::opaque]
    pub open spec fn present_spec(
        image: Seq<u8>,
        bytes: Map<int, u8>,
        this: u64,
        kind: PouchItemType,
        name: Seq<u8>,
    ) -> Result<(Map<int, u8>, Seq<u8>, u64), Error> {
        match Self::list1_of(image).traverse_spec(bytes, wrap(this + PMDM_LIST1)) {
            Err(e) => Err(e),
            Ok(()) => match Self::item_head_spec(
                image,
                bytes,
                if kind == PouchItemType::KeyItem {
                    PouchCategory::KeyItem
                } else {
                    PouchCategory::Sword
                },
            ) {
                Err(e) => Err(e),
                Ok(head) => Self::find_spec(image, bytes, this, head, kind, name, RUN_LIMIT as nat),
            },
        }
    }

    /// What putting a new item into the pouch, and then putting the list of
    /// items in use in order, gives.
    pub open spec fn pick_spec(
        image: Seq<u8>,
        bytes: Map<int, u8>,
        this: u64,
        name: Seq<u8>,
        kind: PouchItemType,
        value: i32,
    ) -> Result<(Map<int, u8>, Seq<u8>), Error> {
        match Self::add_spec(image, bytes, this, name, kind, value) {
            Err(e) => Err(e),
            Ok((b1, s1)) => Self::after_adding_spec(s1, b1, this),
        }
    }

    /// What `get` gives for an item of the name `name`, the kind `kind` and
    /// the value `value`: the bytes afterwards and the manager as it was
    /// read last.
    ///
    /// A key item of which the pouch holds one at most, and which it holds
    /// and shows already, is not picked up again. The sword of which the
    /// pouch holds one at most, where it holds and shows it already, is
    /// made new instead. Nothing is picked up of no kind. In every other
    /// case the item is put into the first unused slot and linked into the
    /// list of items in use, and that list is put in order.
    pub open spec fn get_spec(
        image: Seq<u8>,
        bytes: Map<int, u8>,
        this: u64,
        name: Seq<u8>,
        kind: PouchItemType,
        value: i32,
    ) -> Result<(Map<int, u8>, Seq<u8>), Error> {
        if Self::looks_for_key(kind, name) || Self::looks_for_sword(kind, name) {
            match Self::present_spec(image, bytes, this, kind, name) {
                Err(e) => Err(e),
                Ok((b1, s1, found)) => if found == 0 {
                    Self::pick_spec(s1, b1, this, name, kind, value)
                } else if kind == PouchItemType::KeyItem {
                    Ok((b1, s1))
                } else {
                    Self::respawn_spec(s1, b1, this, found)
                },
            }
        } else if kind == PouchItemType::Invalid {
            Ok((bytes, image))
        } else {
            Self::pick_spec(image, bytes, this, name, kind, value)
        }
    }

    /// Looks for an item that the pouch may hold only once.
    fn present(
        &mut self,
        memory: &mut Memory,
        this: Pointer<Self>,
        kind: PouchItemType,
        name: &str,
    ) -> (r: Result<Pointer<PouchItem>, Error>)
        ensures
            final(memory).wf(),
            match r {
                Ok(found) => Self::present_spec(
                    old(self)@,
                    old(memory).bytes(),
                    this.address,
                    kind,
                    name.spec_bytes(),
                ) == Ok::<(Map<int, u8>, Seq<u8>, u64), Error>(
                    (final(memory).bytes(), final(self)@, found.address),
                ),
                Err(e) => Self::present_spec(
                    old(self)@,
                    old(memory).bytes(),
                    this.address,
                    kind,
                    name.spec_bytes(),
                ) == Err::<(Map<int, u8>, Seq<u8>, u64), Error>(e),
            },
    {
        reveal(PauseMenuDataMgr::present_spec);
        proof {
            use_type_invariant(&*memory);
        }
        if let Err(e) = self.traverse_list1(memory, this) {
            return Err(e);
        }
        let category = if kind == PouchItemType::KeyItem {
            PouchCategory::KeyItem
        } else {
            PouchCategory::Sword
        };
        let head = match self.get_item_head(memory, category) {
            Err(e) => {
                return Err(e);
            },
            Ok(head) => head,
        };
        self.find(memory, this, head, kind, name)
    }

    /// Puts a new item into the pouch and puts the list of items in use in
    /// order.
    fn pick(
        &mut self,
        memory: &mut Memory,
        this: Pointer<Self>,
        name: &str,
        item_type: PouchItemType,
        value: i32,
    ) -> (r: Result<(), Error>)
        ensures
            final(memory).wf(),
            match r {
                Ok(()) => Self::pick_spec(
                    old(self)@,
                    old(memory).bytes(),
                    this.address,
                    name.spec_bytes(),
                    item_type,
                    value,
                ) == Ok::<(Map<int, u8>, Seq<u8>), Error>((final(memory).bytes(), final(self)@)),
                Err(e) => Self::pick_spec(
                    old(self)@,
                    old(memory).bytes(),
                    this.address,
                    name.spec_bytes(),
                    item_type,
                    value,
                ) == Err::<(Map<int, u8>, Seq<u8>), Error>(e),
            },
    {
        proof {
            use_type_invariant(&*memory);
        }
        if let Err(e) = self.add(memory, this, name, item_type, value) {
            return Err(e);
        }
        self.update_after_adding_item(memory, this)
    }

    /// Picks up an item of the name `name`, the kind `item_type` and the
    /// value `value`.
    ///
    /// A key item of which the pouch holds one at most, and which it holds
    /// and shows already, is not picked up again. The sword of which the
    /// pouch holds one at most, where it holds and shows it already, is made
    /// new instead: its value is zero, it is not equipped, and it is the
    /// item that was added last unless it was worn out. Nothing is picked
    /// up of no kind. In every other case the item is put into the first
    /// unused slot and linked into the list of items in use, behind its
    /// last item, and that list is put in order. What modifies a weapon is
    /// not looked at.
    pub fn get(
        &mut self,
        memory: &mut Memory,
        this: Pointer<Self>,
        name: &str,
        item_type: PouchItemType,
        value: i32,
        modifier: Pointer<WeaponModifierInfo>,
    ) -> (r: Result<(), Error>)
        ensures
            final(memory).wf(),
            match r {
                Ok(()) => Self::get_spec(
                    old(self)@,
                    old(memory).bytes(),
                    this.address,
                    name.spec_bytes(),
                    item_type,
                    value,
                ) == Ok::<(Map<int, u8>, Seq<u8>), Error>((final(memory).bytes(), final(self)@)),
                Err(e) => Self::get_spec(
                    old(self)@,
                    old(memory).bytes(),
                    this.address,
                    name.spec_bytes(),
                    item_type,
                    value,
                ) == Err::<(Map<int, u8>, Seq<u8>), Error>(e),
            },
    {
        proof {
            use_type_invariant(&*memory);
        }
        let key = item_type == PouchItemType::KeyItem && !is_repeatable(name);
        let sword = !key && item_type == PouchItemType::Sword && is_master_sword(name);
        if key || sword {
            let found = match self.present(memory, this, item_type, name) {
                Err(e) => {
                    return Err(e);
                },
                Ok(found) => found,
            };
            if found.is_null() {
                return self.pick(memory, this, name, item_type, value);
            }
            if key {
                return Ok(());
            }
            return self.respawn(memory, this, found);
        }
        if item_type == PouchItemType::Invalid {
            return Ok(());
        }
        self.pick(memory, this, name, item_type, value)
    }
}

} // verus!
