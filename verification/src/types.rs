//! The enumerations and small records of the game's inventory.
use std::marker::PhantomData;
use vstd::prelude::*;

pub use crate::item::PouchItem;
pub use crate::lang::translate_name;
pub use crate::list::{ListNode, OffsetList};
pub use crate::pmdm::{GameData, Lists};
pub use crate::slab::{FixedObjArray, FreeList, FreeListNode};
pub use crate::string::{FixedSafeString, FixedSafeStringVTable};

use crate::image::{copy_range, field, read_field};
use crate::mem::Pointer;
use crate::traits::Updatable;

verus! {

/// The most items that the pouch holds.
pub const NUM_POUCH_ITEMS_MAX: i32 = 420;

/// The most ingredients of a cooked item.
pub const NUM_INGREDIENTS_MAX: i32 = 5;

/// The number of categories of the pouch.
pub const NUM_POUCH_CATEGORIES: i32 = 7;

/// The most tabs of the pause menu.
pub const NUM_TAB_MAX: i32 = 50;

/// The most items that can be held at once.
pub const NUM_GRABBABLE_ITEMS: i32 = 5;

/// What kind of thing an item is.
#[derive(Clone, Copy, Debug, PartialEq, Eq, Structural)]
pub enum PouchItemType {
    /// A sword or another melee weapon.
    Sword,
    /// A bow.
    Bow,
    /// Arrows.
    Arrow,
    /// A shield.
    Shield,
    /// Armor for the head.
    ArmorHead,
    /// Armor for the upper body.
    ArmorUpper,
    /// Armor for the lower body.
    ArmorLower,
    /// A material.
    Material,
    /// Food.
    Food,
    /// A key item.
    KeyItem,
    /// No item.
    Invalid,
}

impl View for PouchItemType {
    type V = PouchItemType;

    open spec fn view(&self) -> PouchItemType {
        *self
    }
}

impl Default for PouchItemType {
    fn default() -> (value: Self)
        ensures
            value == PouchItemType::Invalid,
    {
        PouchItemType::Invalid
    }
}

impl PouchItemType {
    /// The number that stands for the value in memory.
    pub open spec fn raw_spec(self) -> i32 {
        match self {
            PouchItemType::Sword => 0,
            PouchItemType::Bow => 1,
            PouchItemType::Arrow => 2,
            PouchItemType::Shield => 3,
            PouchItemType::ArmorHead => 4,
            PouchItemType::ArmorUpper => 5,
            PouchItemType::ArmorLower => 6,
            PouchItemType::Material => 7,
            PouchItemType::Food => 8,
            PouchItemType::KeyItem => 9,
            PouchItemType::Invalid => 10,
        }
    }

    /// The value that a number in memory stands for; a number that stands
    /// for none is taken as `Invalid`.
    pub open spec fn from_raw_spec(raw: i32) -> Self {
        if raw == 0 {
            PouchItemType::Sword
        } else if raw == 1 {
            PouchItemType::Bow
        } else if raw == 2 {
            PouchItemType::Arrow
        } else if raw == 3 {
            PouchItemType::Shield
        } else if raw == 4 {
            PouchItemType::ArmorHead
        } else if raw == 5 {
            PouchItemType::ArmorUpper
        } else if raw == 6 {
            PouchItemType::ArmorLower
        } else if raw == 7 {
            PouchItemType::Material
        } else if raw == 8 {
            PouchItemType::Food
        } else if raw == 9 {
            PouchItemType::KeyItem
        } else {
            PouchItemType::Invalid
        }
    }

    /// The number that stands for the value in memory.
    #[verifier::when_used_as_spec(raw_spec)]
    pub fn raw(self) -> (raw: i32)
        ensures
            raw == self.raw_spec(),
    {
        match self {
            PouchItemType::Sword => 0,
            PouchItemType::Bow => 1,
            PouchItemType::Arrow => 2,
            PouchItemType::Shield => 3,
            PouchItemType::ArmorHead => 4,
            PouchItemType::ArmorUpper => 5,
            PouchItemType::ArmorLower => 6,
            PouchItemType::Material => 7,
            PouchItemType::Food => 8,
            PouchItemType::KeyItem => 9,
            PouchItemType::Invalid => 10,
        }
    }

    /// The value that a number in memory stands for.
    #[verifier::when_used_as_spec(from_raw_spec)]
    pub fn from_raw(raw: i32) -> (value: Self)
        ensures
            value == Self::from_raw_spec(raw),
    {
        if raw == 0 {
            PouchItemType::Sword
        } else if raw == 1 {
            PouchItemType::Bow
        } else if raw == 2 {
            PouchItemType::Arrow
        } else if raw == 3 {
            PouchItemType::Shield
        } else if raw == 4 {
            PouchItemType::ArmorHead
        } else if raw == 5 {
            PouchItemType::ArmorUpper
        } else if raw == 6 {
            PouchItemType::ArmorLower
        } else if raw == 7 {
            PouchItemType::Material
        } else if raw == 8 {
            PouchItemType::Food
        } else if raw == 9 {
            PouchItemType::KeyItem
        } else {
            PouchItemType::Invalid
        }
    }
}

impl Updatable for PouchItemType {
    open spec fn layout_size() -> usize {
        4
    }

    open spec fn decode(bytes: Seq<u8>) -> PouchItemType {
        PouchItemType::from_raw_spec(i32::decode(bytes))
    }

    open spec fn encode(value: PouchItemType) -> Seq<u8> {
        i32::encode(value.raw_spec())
    }

    open spec fn representable(value: PouchItemType) -> bool {
        true
    }

    proof fn lemma_layout(value: PouchItemType) {
        i32::lemma_layout(value.raw_spec());
    }

    fn size() -> (n: usize) {
        4
    }

    fn from_bytes(bytes: &[u8]) -> (value: Self) {
        let value = PouchItemType::from_raw(i32::from_bytes(bytes));
        assert(Self::representable(value@));
        assert(value@ == Self::decode(bytes@));
        value
    }

    fn to_bytes(&self) -> (bytes: Vec<u8>) {
        let bytes = self.raw().to_bytes();
        assert(Self::representable(self@));
        assert(bytes@ == Self::encode(self@));
        bytes
    }
}

/// The category of the pouch that an item is listed under.
#[derive(Clone, Copy, Debug, PartialEq, Eq, Structural)]
pub enum PouchCategory {
    /// Melee weapons.
    Sword,
    /// Bows and arrows.
    Bow,
    /// Shields.
    Shield,
    /// Armor.
    Armor,
    /// Materials.
    Material,
    /// Food.
    Food,
    /// Key items.
    KeyItem,
    /// No category.
    Invalid,
}

impl View for PouchCategory {
    type V = PouchCategory;

    open spec fn view(&self) -> PouchCategory {
        *self
    }
}

impl PouchItemType {
    /// The category under which the pouch lists items of the kind.
    pub open spec fn category_spec(self) -> PouchCategory {
        match self {
            PouchItemType::Sword => PouchCategory::Sword,
            PouchItemType::Bow => PouchCategory::Bow,
            PouchItemType::Arrow => PouchCategory::Bow,
            PouchItemType::Shield => PouchCategory::Shield,
            PouchItemType::ArmorHead => PouchCategory::Armor,
            PouchItemType::ArmorUpper => PouchCategory::Armor,
            PouchItemType::ArmorLower => PouchCategory::Armor,
            PouchItemType::Material => PouchCategory::Material,
            PouchItemType::Food => PouchCategory::Food,
            PouchItemType::KeyItem => PouchCategory::KeyItem,
            PouchItemType::Invalid => PouchCategory::Invalid,
        }
    }

    /// The category under which the pouch lists items of the kind.
    pub fn category(&self) -> (c: PouchCategory)
        ensures
            c == self.category_spec(),
    {
        match self {
            PouchItemType::Sword => PouchCategory::Sword,
            PouchItemType::Bow => PouchCategory::Bow,
            PouchItemType::Arrow => PouchCategory::Bow,
            PouchItemType::Shield => PouchCategory::Shield,
            PouchItemType::ArmorHead => PouchCategory::Armor,
            PouchItemType::ArmorUpper => PouchCategory::Armor,
            PouchItemType::ArmorLower => PouchCategory::Armor,
            PouchItemType::Material => PouchCategory::Material,
            PouchItemType::Food => PouchCategory::Food,
            PouchItemType::KeyItem => PouchCategory::KeyItem,
            PouchItemType::Invalid => PouchCategory::Invalid,
        }
    }
}

impl Default for PouchCategory {
    fn default() -> (value: Self)
        ensures
            value == PouchCategory::Invalid,
    {
        PouchCategory::Invalid
    }
}

impl PouchCategory {
    /// The number that stands for the value in memory.
    pub open spec fn raw_spec(self) -> i32 {
        match self {
            PouchCategory::Sword => 0,
            PouchCategory::Bow => 1,
            PouchCategory::Shield => 2,
            PouchCategory::Armor => 3,
            PouchCategory::Material => 4,
            PouchCategory::Food => 5,
            PouchCategory::KeyItem => 6,
            PouchCategory::Invalid => 7,
        }
    }

    /// The value that a number in memory stands for; a number that stands
    /// for none is taken as `Invalid`.
    pub open spec fn from_raw_spec(raw: i32) -> Self {
        if raw == 0 {
            PouchCategory::Sword
        } else if raw == 1 {
            PouchCategory::Bow
        } else if raw == 2 {
            PouchCategory::Shield
        } else if raw == 3 {
            PouchCategory::Armor
        } else if raw == 4 {
            PouchCategory::Material
        } else if raw == 5 {
            PouchCategory::Food
        } else if raw == 6 {
            PouchCategory::KeyItem
        } else {
            PouchCategory::Invalid
        }
    }

    /// The number that stands for the value in memory.
    #[verifier::when_used_as_spec(raw_spec)]
    pub fn raw(self) -> (raw: i32)
        ensures
            raw == self.raw_spec(),
    {
        match self {
            PouchCategory::Sword => 0,
            PouchCategory::Bow => 1,
            PouchCategory::Shield => 2,
            PouchCategory::Armor => 3,
            PouchCategory::Material => 4,
            PouchCategory::Food => 5,
            PouchCategory::KeyItem => 6,
            PouchCategory::Invalid => 7,
        }
    }

    /// The value that a number in memory stands for.
    #[verifier::when_used_as_spec(from_raw_spec)]
    pub fn from_raw(raw: i32) -> (value: Self)
        ensures
            value == Self::from_raw_spec(raw),
    {
        if raw == 0 {
            PouchCategory::Sword
        } else if raw == 1 {
            PouchCategory::Bow
        } else if raw == 2 {
            PouchCategory::Shield
        } else if raw == 3 {
            PouchCategory::Armor
        } else if raw == 4 {
            PouchCategory::Material
        } else if raw == 5 {
            PouchCategory::Food
        } else if raw == 6 {
            PouchCategory::KeyItem
        } else {
            PouchCategory::Invalid
        }
    }
}

impl Updatable for PouchCategory {
    open spec fn layout_size() -> usize {
        4
    }

    open spec fn decode(bytes: Seq<u8>) -> PouchCategory {
        PouchCategory::from_raw_spec(i32::decode(bytes))
    }

    open spec fn encode(value: PouchCategory) -> Seq<u8> {
        i32::encode(value.raw_spec())
    }

    open spec fn representable(value: PouchCategory) -> bool {
        true
    }

    proof fn lemma_layout(value: PouchCategory) {
        i32::lemma_layout(value.raw_spec());
    }

    fn size() -> (n: usize) {
        4
    }

    fn from_bytes(bytes: &[u8]) -> (value: Self) {
        let value = PouchCategory::from_raw(i32::from_bytes(bytes));
        assert(Self::representable(value@));
        assert(value@ == Self::decode(bytes@));
        value
    }

    fn to_bytes(&self) -> (bytes: Vec<u8>) {
        let bytes = self.raw().to_bytes();
        assert(Self::representable(self@));
        assert(bytes@ == Self::encode(self@));
        bytes
    }
}

/// What an item is used as.
#[derive(Clone, Copy, Debug, PartialEq, Eq, Structural)]
pub enum ItemUse {
    /// A one-handed sword.
    WeaponSmallSword,
    /// A two-handed sword.
    WeaponLargeSword,
    /// A spear.
    WeaponSpear,
    /// A bow.
    WeaponBow,
    /// A shield.
    WeaponShield,
    /// Armor for the head.
    ArmorHead,
    /// Armor for the lower body.
    ArmorLower,
    /// Armor for the upper body.
    ArmorUpper,
    /// An ordinary item.
    Item,
    /// An important item.
    ImportantItem,
    /// An item that restores.
    CureItem,
    /// No use.
    Invalid,
}

impl View for ItemUse {
    type V = ItemUse;

    open spec fn view(&self) -> ItemUse {
        *self
    }
}

impl Default for ItemUse {
    fn default() -> (value: Self)
        ensures
            value == ItemUse::Invalid,
    {
        ItemUse::Invalid
    }
}

impl ItemUse {
    /// The number that stands for the value in memory.
    pub open spec fn raw_spec(self) -> i32 {
        match self {
            ItemUse::WeaponSmallSword => 0,
            ItemUse::WeaponLargeSword => 1,
            ItemUse::WeaponSpear => 2,
            ItemUse::WeaponBow => 3,
            ItemUse::WeaponShield => 4,
            ItemUse::ArmorHead => 5,
            ItemUse::ArmorLower => 6,
            ItemUse::ArmorUpper => 7,
            ItemUse::Item => 8,
            ItemUse::ImportantItem => 9,
            ItemUse::CureItem => 10,
            ItemUse::Invalid => 11,
        }
    }

    /// The value that a number in memory stands for; a number that stands
    /// for none is taken as `Invalid`.
    pub open spec fn from_raw_spec(raw: i32) -> Self {
        if raw == 0 {
            ItemUse::WeaponSmallSword
        } else if raw == 1 {
            ItemUse::WeaponLargeSword
        } else if raw == 2 {
            ItemUse::WeaponSpear
        } else if raw == 3 {
            ItemUse::WeaponBow
        } else if raw == 4 {
            ItemUse::WeaponShield
        } else if raw == 5 {
            ItemUse::ArmorHead
        } else if raw == 6 {
            ItemUse::ArmorLower
        } else if raw == 7 {
            ItemUse::ArmorUpper
        } else if raw == 8 {
            ItemUse::Item
        } else if raw == 9 {
            ItemUse::ImportantItem
        } else if raw == 10 {
            ItemUse::CureItem
        } else {
            ItemUse::Invalid
        }
    }

    /// The number that stands for the value in memory.
    #[verifier::when_used_as_spec(raw_spec)]
    pub fn raw(self) -> (raw: i32)
        ensures
            raw == self.raw_spec(),
    {
        match self {
            ItemUse::WeaponSmallSword => 0,
            ItemUse::WeaponLargeSword => 1,
            ItemUse::WeaponSpear => 2,
            ItemUse::WeaponBow => 3,
            ItemUse::WeaponShield => 4,
            ItemUse::ArmorHead => 5,
            ItemUse::ArmorLower => 6,
            ItemUse::ArmorUpper => 7,
            ItemUse::Item => 8,
            ItemUse::ImportantItem => 9,
            ItemUse::CureItem => 10,
            ItemUse::Invalid => 11,
        }
    }

    /// The value that a number in memory stands for.
    #[verifier::when_used_as_spec(from_raw_spec)]
    pub fn from_raw(raw: i32) -> (value: Self)
        ensures
            value == Self::from_raw_spec(raw),
    {
        if raw == 0 {
            ItemUse::WeaponSmallSword
        } else if raw == 1 {
            ItemUse::WeaponLargeSword
        } else if raw == 2 {
            ItemUse::WeaponSpear
        } else if raw == 3 {
            ItemUse::WeaponBow
        } else if raw == 4 {
            ItemUse::WeaponShield
        } else if raw == 5 {
            ItemUse::ArmorHead
        } else if raw == 6 {
            ItemUse::ArmorLower
        } else if raw == 7 {
            ItemUse::ArmorUpper
        } else if raw == 8 {
            ItemUse::Item
        } else if raw == 9 {
            ItemUse::ImportantItem
        } else if raw == 10 {
            ItemUse::CureItem
        } else {
            ItemUse::Invalid
        }
    }
}

impl Updatable for ItemUse {
    open spec fn layout_size() -> usize {
        4
    }

    open spec fn decode(bytes: Seq<u8>) -> ItemUse {
        ItemUse::from_raw_spec(i32::decode(bytes))
    }

    open spec fn encode(value: ItemUse) -> Seq<u8> {
        i32::encode(value.raw_spec())
    }

    open spec fn representable(value: ItemUse) -> bool {
        true
    }

    proof fn lemma_layout(value: ItemUse) {
        i32::lemma_layout(value.raw_spec());
    }

    fn size() -> (n: usize) {
        4
    }

    fn from_bytes(bytes: &[u8]) -> (value: Self) {
        let value = ItemUse::from_raw(i32::from_bytes(bytes));
        assert(Self::representable(value@));
        assert(value@ == Self::decode(bytes@));
        value
    }

    fn to_bytes(&self) -> (bytes: Vec<u8>) {
        let bytes = self.raw().to_bytes();
        assert(Self::representable(self@));
        assert(bytes@ == Self::encode(self@));
        bytes
    }
}

/// A bonus that a weapon carries.
#[derive(Clone, Copy, Debug, PartialEq, Eq, Structural)]
pub enum WeaponModifier {
    /// No bonus.
    NoModifier,
    /// More attack power.
    AddAtk,
    /// More durability.
    AddLife,
    /// A higher chance of critical hits.
    AddCrit,
    /// A longer throw.
    AddThrow,
    /// More arrows at once.
    AddSpreadFire,
    /// A quicker zoom.
    AddZoomRapid,
    /// Quicker shots.
    AddRapidFire,
    /// Better shield surfing.
    AddSurfMaster,
    /// More guard.
    AddGuard,
    /// The bonus is of the stronger kind.
    IsYellow,
}

impl View for WeaponModifier {
    type V = WeaponModifier;

    open spec fn view(&self) -> WeaponModifier {
        *self
    }
}

impl Default for WeaponModifier {
    fn default() -> (value: Self)
        ensures
            value == WeaponModifier::NoModifier,
    {
        WeaponModifier::NoModifier
    }
}

impl WeaponModifier {
    /// The number that stands for the value in memory.
    pub open spec fn raw_spec(self) -> u32 {
        match self {
            WeaponModifier::NoModifier => 0,
            WeaponModifier::AddAtk => 0x1,
            WeaponModifier::AddLife => 0x2,
            WeaponModifier::AddCrit => 0x4,
            WeaponModifier::AddThrow => 0x8,
            WeaponModifier::AddSpreadFire => 0x10,
            WeaponModifier::AddZoomRapid => 0x20,
            WeaponModifier::AddRapidFire => 0x40,
            WeaponModifier::AddSurfMaster => 0x80,
            WeaponModifier::AddGuard => 0x100,
            WeaponModifier::IsYellow => 0x8000_0000,
        }
    }

    /// The value that a number in memory stands for; a number that stands
    /// for none is taken as `NoModifier`.
    pub open spec fn from_raw_spec(raw: u32) -> Self {
        if raw == 0x1 {
            WeaponModifier::AddAtk
        } else if raw == 0x2 {
            WeaponModifier::AddLife
        } else if raw == 0x4 {
            WeaponModifier::AddCrit
        } else if raw == 0x8 {
            WeaponModifier::AddThrow
        } else if raw == 0x10 {
            WeaponModifier::AddSpreadFire
        } else if raw == 0x20 {
            WeaponModifier::AddZoomRapid
        } else if raw == 0x40 {
            WeaponModifier::AddRapidFire
        } else if raw == 0x80 {
            WeaponModifier::AddSurfMaster
        } else if raw == 0x100 {
            WeaponModifier::AddGuard
        } else if raw == 0x8000_0000 {
            WeaponModifier::IsYellow
        } else {
            WeaponModifier::NoModifier
        }
    }

    /// The number that stands for the value in memory.
    #[verifier::when_used_as_spec(raw_spec)]
    pub fn raw(self) -> (raw: u32)
        ensures
            raw == self.raw_spec(),
    {
        match self {
            WeaponModifier::NoModifier => 0,
            WeaponModifier::AddAtk => 0x1,
            WeaponModifier::AddLife => 0x2,
            WeaponModifier::AddCrit => 0x4,
            WeaponModifier::AddThrow => 0x8,
            WeaponModifier::AddSpreadFire => 0x10,
            WeaponModifier::AddZoomRapid => 0x20,
            WeaponModifier::AddRapidFire => 0x40,
            WeaponModifier::AddSurfMaster => 0x80,
            WeaponModifier::AddGuard => 0x100,
            WeaponModifier::IsYellow => 0x8000_0000,
        }
    }

    /// The value that a number in memory stands for.
    #[verifier::when_used_as_spec(from_raw_spec)]
    pub fn from_raw(raw: u32) -> (value: Self)
        ensures
            value == Self::from_raw_spec(raw),
    {
        if raw == 0x1 {
            WeaponModifier::AddAtk
        } else if raw == 0x2 {
            WeaponModifier::AddLife
        } else if raw == 0x4 {
            WeaponModifier::AddCrit
        } else if raw == 0x8 {
            WeaponModifier::AddThrow
        } else if raw == 0x10 {
            WeaponModifier::AddSpreadFire
        } else if raw == 0x20 {
            WeaponModifier::AddZoomRapid
        } else if raw == 0x40 {
            WeaponModifier::AddRapidFire
        } else if raw == 0x80 {
            WeaponModifier::AddSurfMaster
        } else if raw == 0x100 {
            WeaponModifier::AddGuard
        } else if raw == 0x8000_0000 {
            WeaponModifier::IsYellow
        } else {
            WeaponModifier::NoModifier
        }
    }
}

impl Updatable for WeaponModifier {
    open spec fn layout_size() -> usize {
        4
    }

    open spec fn decode(bytes: Seq<u8>) -> WeaponModifier {
        WeaponModifier::from_raw_spec(u32::decode(bytes))
    }

    open spec fn encode(value: WeaponModifier) -> Seq<u8> {
        u32::encode(value.raw_spec())
    }

    open spec fn representable(value: WeaponModifier) -> bool {
        true
    }

    proof fn lemma_layout(value: WeaponModifier) {
        u32::lemma_layout(value.raw_spec());
    }

    fn size() -> (n: usize) {
        4
    }

    fn from_bytes(bytes: &[u8]) -> (value: Self) {
        let value = WeaponModifier::from_raw(u32::from_bytes(bytes));
        assert(Self::representable(value@));
        assert(value@ == Self::decode(bytes@));
        value
    }

    fn to_bytes(&self) -> (bytes: Vec<u8>) {
        let bytes = self.raw().to_bytes();
        assert(Self::representable(self@));
        assert(bytes@ == Self::encode(self@));
        bytes
    }
}

/// The effect of a cooked item.
#[derive(Clone, Copy, Debug, PartialEq, Eq, Structural)]
pub enum CookEffectId {
    /// No effect.
    NoEffect,
    /// Restores hearts.
    LifeRecover,
    /// Adds temporary hearts.
    LifeMaxUp,
    /// Resists heat.
    ResistHot,
    /// Resists cold.
    ResistCold,
    /// Resists shocks.
    ResistElectric,
    /// Raises attack.
    AttackUp,
    /// Raises defense.
    DefenseUp,
    /// Quiets steps.
    Quietness,
    /// Raises speed.
    MovingSpeed,
    /// Restores stamina.
    GutsRecover,
    /// Adds temporary stamina.
    ExGutsMaxUp,
    /// Resists fire.
    Fireproof,
}

impl View for CookEffectId {
    type V = CookEffectId;

    open spec fn view(&self) -> CookEffectId {
        *self
    }
}

impl Default for CookEffectId {
    fn default() -> (value: Self)
        ensures
            value == CookEffectId::NoEffect,
    {
        CookEffectId::NoEffect
    }
}

impl CookEffectId {
    /// The number that stands for the value in memory.
    pub open spec fn raw_spec(self) -> i32 {
        match self {
            CookEffectId::NoEffect => -1i32,
            CookEffectId::LifeRecover => 1,
            CookEffectId::LifeMaxUp => 2,
            CookEffectId::ResistHot => 4,
            CookEffectId::ResistCold => 5,
            CookEffectId::ResistElectric => 6,
            CookEffectId::AttackUp => 10,
            CookEffectId::DefenseUp => 11,
            CookEffectId::Quietness => 12,
            CookEffectId::MovingSpeed => 13,
            CookEffectId::GutsRecover => 14,
            CookEffectId::ExGutsMaxUp => 15,
            CookEffectId::Fireproof => 16,
        }
    }

    /// The value that a number in memory stands for; a number that stands
    /// for none is taken as `NoEffect`.
    pub open spec fn from_raw_spec(raw: i32) -> Self {
        if raw == 1 {
            CookEffectId::LifeRecover
        } else if raw == 2 {
            CookEffectId::LifeMaxUp
        } else if raw == 4 {
            CookEffectId::ResistHot
        } else if raw == 5 {
            CookEffectId::ResistCold
        } else if raw == 6 {
            CookEffectId::ResistElectric
        } else if raw == 10 {
            CookEffectId::AttackUp
        } else if raw == 11 {
            CookEffectId::DefenseUp
        } else if raw == 12 {
            CookEffectId::Quietness
        } else if raw == 13 {
            CookEffectId::MovingSpeed
        } else if raw == 14 {
            CookEffectId::GutsRecover
        } else if raw == 15 {
            CookEffectId::ExGutsMaxUp
        } else if raw == 16 {
            CookEffectId::Fireproof
        } else {
            CookEffectId::NoEffect
        }
    }

    /// The number that stands for the value in memory.
    #[verifier::when_used_as_spec(raw_spec)]
    pub fn raw(self) -> (raw: i32)
        ensures
            raw == self.raw_spec(),
    {
        match self {
            CookEffectId::NoEffect => -1i32,
            CookEffectId::LifeRecover => 1,
            CookEffectId::LifeMaxUp => 2,
            CookEffectId::ResistHot => 4,
            CookEffectId::ResistCold => 5,
            CookEffectId::ResistElectric => 6,
            CookEffectId::AttackUp => 10,
            CookEffectId::DefenseUp => 11,
            CookEffectId::Quietness => 12,
            CookEffectId::MovingSpeed => 13,
            CookEffectId::GutsRecover => 14,
            CookEffectId::ExGutsMaxUp => 15,
            CookEffectId::Fireproof => 16,
        }
    }

    /// The value that a number in memory stands for.
    #[verifier::when_used_as_spec(from_raw_spec)]
    pub fn from_raw(raw: i32) -> (value: Self)
        ensures
            value == Self::from_raw_spec(raw),
    {
        if raw == 1 {
            CookEffectId::LifeRecover
        } else if raw == 2 {
            CookEffectId::LifeMaxUp
        } else if raw == 4 {
            CookEffectId::ResistHot
        } else if raw == 5 {
            CookEffectId::ResistCold
        } else if raw == 6 {
            CookEffectId::ResistElectric
        } else if raw == 10 {
            CookEffectId::AttackUp
        } else if raw == 11 {
            CookEffectId::DefenseUp
        } else if raw == 12 {
            CookEffectId::Quietness
        } else if raw == 13 {
            CookEffectId::MovingSpeed
        } else if raw == 14 {
            CookEffectId::GutsRecover
        } else if raw == 15 {
            CookEffectId::ExGutsMaxUp
        } else if raw == 16 {
            CookEffectId::Fireproof
        } else {
            CookEffectId::NoEffect
        }
    }
}

impl Updatable for CookEffectId {
    open spec fn layout_size() -> usize {
        4
    }

    open spec fn decode(bytes: Seq<u8>) -> CookEffectId {
        CookEffectId::from_raw_spec(i32::decode(bytes))
    }

    open spec fn encode(value: CookEffectId) -> Seq<u8> {
        i32::encode(value.raw_spec())
    }

    open spec fn representable(value: CookEffectId) -> bool {
        true
    }

    proof fn lemma_layout(value: CookEffectId) {
        i32::lemma_layout(value.raw_spec());
    }

    fn size() -> (n: usize) {
        4
    }

    fn from_bytes(bytes: &[u8]) -> (value: Self) {
        let value = CookEffectId::from_raw(i32::from_bytes(bytes));
        assert(Self::representable(value@));
        assert(value@ == Self::decode(bytes@));
        value
    }

    fn to_bytes(&self) -> (bytes: Vec<u8>) {
        let bytes = self.raw().to_bytes();
        assert(Self::representable(self@));
        assert(bytes@ == Self::encode(self@));
        bytes
    }
}
/// Offset of the hearts that the item restores.
pub const COOK_HEALTH_RECOVER: usize = 0;

/// Offset of the time that the effect lasts.
pub const COOK_EFFECT_DURATION: usize = 4;

/// Offset of the price that the item sells for.
pub const COOK_SELL_PRICE: usize = 8;

/// Offset of the bits of the effect.
pub const COOK_EFFECT_ID: usize = 12;

/// Offset of the bits of the level of the effect.
pub const COOK_EFFECT_LEVEL: usize = 16;

/// What a cooked item does, as it lies in memory. The effect and its level are
/// numbers with a fraction in memory; they are held here as the bits that
/// stand for them.
pub struct CookData {
    image: Vec<u8>,
}

impl View for CookData {
    type V = Seq<u8>;

    closed spec fn view(&self) -> Seq<u8> {
        self.image@
    }
}

impl Clone for CookData {
    fn clone(&self) -> (r: Self)
        ensures
            r@ == self@,
    {
        proof {
            use_type_invariant(self);
        }
        CookData { image: copy_range(self.image.as_slice(), 0, self.image.len()) }
    }
}

impl Updatable for CookData {
    open spec fn layout_size() -> usize {
        20
    }

    open spec fn decode(bytes: Seq<u8>) -> Seq<u8> {
        bytes
    }

    open spec fn encode(value: Seq<u8>) -> Seq<u8> {
        value
    }

    open spec fn representable(value: Seq<u8>) -> bool {
        value.len() == Self::layout_size()
    }

    proof fn lemma_layout(value: Seq<u8>) {
    }

    fn size() -> (n: usize) {
        20
    }

    fn from_bytes(bytes: &[u8]) -> (value: Self) {
        let value = CookData { image: copy_range(bytes, 0, bytes.len()) };
        assert(bytes@.subrange(0, bytes@.len() as int) =~= bytes@);
        assert(Self::representable(value@));
        assert(value@ == Self::decode(bytes@));
        value
    }

    fn to_bytes(&self) -> (bytes: Vec<u8>) {
        proof {
            use_type_invariant(self);
        }
        let bytes = copy_range(self.image.as_slice(), 0, self.image.len());
        assert(self@.subrange(0, self@.len() as int) =~= self@);
        assert(Self::representable(self@));
        assert(bytes@ == Self::encode(self@));
        bytes
    }
}

impl CookData {
    #[verifier::type_invariant]
    spec fn inv(self) -> bool {
        self.image@.len() == Self::layout_size()
    }

    /// The hearts that the item restores, as an image holds it.
    pub open spec fn health_recover_of(image: Seq<u8>) -> i32 {
        field::<i32>(image, COOK_HEALTH_RECOVER as int)
    }

    /// The hearts that the item restores.
    pub fn health_recover(&self) -> (value: i32)
        ensures
            value@ == Self::health_recover_of(self@),
            self@.len() == Self::layout_size(),
    {
        proof {
            use_type_invariant(self);
        }
        read_field::<i32>(self.image.as_slice(), COOK_HEALTH_RECOVER)
    }

    /// The time that the effect lasts, as an image holds it.
    pub open spec fn effect_duration_of(image: Seq<u8>) -> i32 {
        field::<i32>(image, COOK_EFFECT_DURATION as int)
    }

    /// The time that the effect lasts.
    pub fn effect_duration(&self) -> (value: i32)
        ensures
            value@ == Self::effect_duration_of(self@),
            self@.len() == Self::layout_size(),
    {
        proof {
            use_type_invariant(self);
        }
        read_field::<i32>(self.image.as_slice(), COOK_EFFECT_DURATION)
    }

    /// The price that the item sells for, as an image holds it.
    pub open spec fn sell_price_of(image: Seq<u8>) -> i32 {
        field::<i32>(image, COOK_SELL_PRICE as int)
    }

    /// The price that the item sells for.
    pub fn sell_price(&self) -> (value: i32)
        ensures
            value@ == Self::sell_price_of(self@),
            self@.len() == Self::layout_size(),
    {
        proof {
            use_type_invariant(self);
        }
        read_field::<i32>(self.image.as_slice(), COOK_SELL_PRICE)
    }

    /// The bits of the effect, as an image holds it.
    pub open spec fn effect_id_of(image: Seq<u8>) -> u32 {
        field::<u32>(image, COOK_EFFECT_ID as int)
    }

    /// The bits of the effect.
    pub fn effect_id(&self) -> (value: u32)
        ensures
            value@ == Self::effect_id_of(self@),
            self@.len() == Self::layout_size(),
    {
        proof {
            use_type_invariant(self);
        }
        read_field::<u32>(self.image.as_slice(), COOK_EFFECT_ID)
    }

    /// The bits of the level of the effect, as an image holds it.
    pub open spec fn effect_level_of(image: Seq<u8>) -> u32 {
        field::<u32>(image, COOK_EFFECT_LEVEL as int)
    }

    /// The bits of the level of the effect.
    pub fn effect_level(&self) -> (value: u32)
        ensures
            value@ == Self::effect_level_of(self@),
            self@.len() == Self::layout_size(),
    {
        proof {
            use_type_invariant(self);
        }
        read_field::<u32>(self.image.as_slice(), COOK_EFFECT_LEVEL)
    }
}

/// Offset of the strength of the bonus.
pub const WEAPON_MODIFIER_VALUE: usize = 0;

/// Offset of the word that the game leaves unused.
pub const WEAPON_UNUSED: usize = 4;

/// Offset of the kinds of bonus, one bit each.
pub const WEAPON_MODIFIER: usize = 8;

/// The bonus of a weapon, as it lies in memory.
pub struct WeaponData {
    image: Vec<u8>,
}

impl View for WeaponData {
    type V = Seq<u8>;

    closed spec fn view(&self) -> Seq<u8> {
        self.image@
    }
}

impl Clone for WeaponData {
    fn clone(&self) -> (r: Self)
        ensures
            r@ == self@,
    {
        proof {
            use_type_invariant(self);
        }
        WeaponData { image: copy_range(self.image.as_slice(), 0, self.image.len()) }
    }
}

impl Updatable for WeaponData {
    open spec fn layout_size() -> usize {
        12
    }

    open spec fn decode(bytes: Seq<u8>) -> Seq<u8> {
        bytes
    }

    open spec fn encode(value: Seq<u8>) -> Seq<u8> {
        value
    }

    open spec fn representable(value: Seq<u8>) -> bool {
        value.len() == Self::layout_size()
    }

    proof fn lemma_layout(value: Seq<u8>) {
    }

    fn size() -> (n: usize) {
        12
    }

    fn from_bytes(bytes: &[u8]) -> (value: Self) {
        let value = WeaponData { image: copy_range(bytes, 0, bytes.len()) };
        assert(bytes@.subrange(0, bytes@.len() as int) =~= bytes@);
        assert(Self::representable(value@));
        assert(value@ == Self::decode(bytes@));
        value
    }

    fn to_bytes(&self) -> (bytes: Vec<u8>) {
        proof {
            use_type_invariant(self);
        }
        let bytes = copy_range(self.image.as_slice(), 0, self.image.len());
        assert(self@.subrange(0, self@.len() as int) =~= self@);
        assert(Self::representable(self@));
        assert(bytes@ == Self::encode(self@));
        bytes
    }
}

impl WeaponData {
    #[verifier::type_invariant]
    spec fn inv(self) -> bool {
        self.image@.len() == Self::layout_size()
    }

    /// The strength of the bonus, as an image holds it.
    pub open spec fn modifier_value_of(image: Seq<u8>) -> u32 {
        field::<u32>(image, WEAPON_MODIFIER_VALUE as int)
    }

    /// The strength of the bonus.
    pub fn modifier_value(&self) -> (value: u32)
        ensures
            value@ == Self::modifier_value_of(self@),
            self@.len() == Self::layout_size(),
    {
        proof {
            use_type_invariant(self);
        }
        read_field::<u32>(self.image.as_slice(), WEAPON_MODIFIER_VALUE)
    }

    /// The word that the game leaves unused, as an image holds it.
    pub open spec fn unused_of(image: Seq<u8>) -> u32 {
        field::<u32>(image, WEAPON_UNUSED as int)
    }

    /// The word that the game leaves unused.
    pub fn unused(&self) -> (value: u32)
        ensures
            value@ == Self::unused_of(self@),
            self@.len() == Self::layout_size(),
    {
        proof {
            use_type_invariant(self);
        }
        read_field::<u32>(self.image.as_slice(), WEAPON_UNUSED)
    }

    /// The kinds of bonus, one bit each, as an image holds it.
    pub open spec fn modifier_of(image: Seq<u8>) -> u32 {
        field::<u32>(image, WEAPON_MODIFIER as int)
    }

    /// The kinds of bonus, one bit each.
    pub fn modifier(&self) -> (value: u32)
        ensures
            value@ == Self::modifier_of(self@),
            self@.len() == Self::layout_size(),
    {
        proof {
            use_type_invariant(self);
        }
        read_field::<u32>(self.image.as_slice(), WEAPON_MODIFIER)
    }
}

/// Offset of the data read as that of a cooked item.
pub const DATA_COOK: usize = 0;

/// Offset of the data read as that of a weapon.
pub const DATA_WEAPON: usize = 0;

/// What an item carries besides its value: for food what it does, for a
/// weapon its bonus. Which of the two it is follows from the kind of the item.
pub struct Data {
    image: Vec<u8>,
}

impl View for Data {
    type V = Seq<u8>;

    closed spec fn view(&self) -> Seq<u8> {
        self.image@
    }
}

impl Clone for Data {
    fn clone(&self) -> (r: Self)
        ensures
            r@ == self@,
    {
        proof {
            use_type_invariant(self);
        }
        Data { image: copy_range(self.image.as_slice(), 0, self.image.len()) }
    }
}

impl Updatable for Data {
    open spec fn layout_size() -> usize {
        20
    }

    open spec fn decode(bytes: Seq<u8>) -> Seq<u8> {
        bytes
    }

    open spec fn encode(value: Seq<u8>) -> Seq<u8> {
        value
    }

    open spec fn representable(value: Seq<u8>) -> bool {
        value.len() == Self::layout_size()
    }

    proof fn lemma_layout(value: Seq<u8>) {
    }

    fn size() -> (n: usize) {
        20
    }

    fn from_bytes(bytes: &[u8]) -> (value: Self) {
        let value = Data { image: copy_range(bytes, 0, bytes.len()) };
        assert(bytes@.subrange(0, bytes@.len() as int) =~= bytes@);
        assert(Self::representable(value@));
        assert(value@ == Self::decode(bytes@));
        value
    }

    fn to_bytes(&self) -> (bytes: Vec<u8>) {
        proof {
            use_type_invariant(self);
        }
        let bytes = copy_range(self.image.as_slice(), 0, self.image.len());
        assert(self@.subrange(0, self@.len() as int) =~= self@);
        assert(Self::representable(self@));
        assert(bytes@ == Self::encode(self@));
        bytes
    }
}

impl Data {
    #[verifier::type_invariant]
    spec fn inv(self) -> bool {
        self.image@.len() == Self::layout_size()
    }

    /// The data read as that of a cooked item, as an image holds it.
    pub open spec fn cook_of(image: Seq<u8>) -> Seq<u8> {
        field::<CookData>(image, DATA_COOK as int)
    }

    /// The data read as that of a cooked item.
    pub fn cook(&self) -> (value: CookData)
        ensures
            value@ == Self::cook_of(self@),
            self@.len() == Self::layout_size(),
    {
        proof {
            use_type_invariant(self);
        }
        read_field::<CookData>(self.image.as_slice(), DATA_COOK)
    }

    /// The data read as that of a weapon, as an image holds it.
    pub open spec fn weapon_of(image: Seq<u8>) -> Seq<u8> {
        field::<WeaponData>(image, DATA_WEAPON as int)
    }

    /// The data read as that of a weapon.
    pub fn weapon(&self) -> (value: WeaponData)
        ensures
            value@ == Self::weapon_of(self@),
            self@.len() == Self::layout_size(),
    {
        proof {
            use_type_invariant(self);
        }
        read_field::<WeaponData>(self.image.as_slice(), DATA_WEAPON)
    }
}

/// Offset of the state of the lock.
pub const MUTEX_STATE: usize = 0;

/// Offset of whether its owner may take the lock again.
pub const MUTEX_IS_RECURSIVE: usize = 1;

/// Offset of the level of the lock.
pub const MUTEX_LOCK_LEVEL: usize = 4;

/// Offset of how often its owner has taken the lock.
pub const MUTEX_NEST_COUNT: usize = 8;

/// Offset of the thread that owns the lock.
pub const MUTEX_OWNER_THREAD: usize = 16;

/// Offset of the handle of the lock.
pub const MUTEX_MUTEX: usize = 24;

/// The lock of the operating system, as it lies in memory.
pub struct MutexType {
    image: Vec<u8>,
}

impl View for MutexType {
    type V = Seq<u8>;

    closed spec fn view(&self) -> Seq<u8> {
        self.image@
    }
}

impl Clone for MutexType {
    fn clone(&self) -> (r: Self)
        ensures
            r@ == self@,
    {
        proof {
            use_type_invariant(self);
        }
        MutexType { image: copy_range(self.image.as_slice(), 0, self.image.len()) }
    }
}

impl Updatable for MutexType {
    open spec fn layout_size() -> usize {
        32
    }

    open spec fn decode(bytes: Seq<u8>) -> Seq<u8> {
        bytes
    }

    open spec fn encode(value: Seq<u8>) -> Seq<u8> {
        value
    }

    open spec fn representable(value: Seq<u8>) -> bool {
        value.len() == Self::layout_size()
    }

    proof fn lemma_layout(value: Seq<u8>) {
    }

    fn size() -> (n: usize) {
        32
    }

    fn from_bytes(bytes: &[u8]) -> (value: Self) {
        let value = MutexType { image: copy_range(bytes, 0, bytes.len()) };
        assert(bytes@.subrange(0, bytes@.len() as int) =~= bytes@);
        assert(Self::representable(value@));
        assert(value@ == Self::decode(bytes@));
        value
    }

    fn to_bytes(&self) -> (bytes: Vec<u8>) {
        proof {
            use_type_invariant(self);
        }
        let bytes = copy_range(self.image.as_slice(), 0, self.image.len());
        assert(self@.subrange(0, self@.len() as int) =~= self@);
        assert(Self::representable(self@));
        assert(bytes@ == Self::encode(self@));
        bytes
    }
}

impl MutexType {
    #[verifier::type_invariant]
    spec fn inv(self) -> bool {
        self.image@.len() == Self::layout_size()
    }

    /// The state of the lock, as an image holds it.
    pub open spec fn state_of(image: Seq<u8>) -> u8 {
        field::<u8>(image, MUTEX_STATE as int)
    }

    /// The state of the lock.
    pub fn state(&self) -> (value: u8)
        ensures
            value@ == Self::state_of(self@),
            self@.len() == Self::layout_size(),
    {
        proof {
            use_type_invariant(self);
        }
        read_field::<u8>(self.image.as_slice(), MUTEX_STATE)
    }

    /// Whether its owner may take the lock again, as an image holds it.
    pub open spec fn is_recursive_of(image: Seq<u8>) -> bool {
        field::<bool>(image, MUTEX_IS_RECURSIVE as int)
    }

    /// Whether its owner may take the lock again.
    pub fn is_recursive(&self) -> (value: bool)
        ensures
            value@ == Self::is_recursive_of(self@),
            self@.len() == Self::layout_size(),
    {
        proof {
            use_type_invariant(self);
        }
        read_field::<bool>(self.image.as_slice(), MUTEX_IS_RECURSIVE)
    }

    /// The level of the lock, as an image holds it.
    pub open spec fn lock_level_of(image: Seq<u8>) -> i32 {
        field::<i32>(image, MUTEX_LOCK_LEVEL as int)
    }

    /// The level of the lock.
    pub fn lock_level(&self) -> (value: i32)
        ensures
            value@ == Self::lock_level_of(self@),
            self@.len() == Self::layout_size(),
    {
        proof {
            use_type_invariant(self);
        }
        read_field::<i32>(self.image.as_slice(), MUTEX_LOCK_LEVEL)
    }

    /// How often its owner has taken the lock, as an image holds it.
    pub open spec fn nest_count_of(image: Seq<u8>) -> i32 {
        field::<i32>(image, MUTEX_NEST_COUNT as int)
    }

    /// How often its owner has taken the lock.
    pub fn nest_count(&self) -> (value: i32)
        ensures
            value@ == Self::nest_count_of(self@),
            self@.len() == Self::layout_size(),
    {
        proof {
            use_type_invariant(self);
        }
        read_field::<i32>(self.image.as_slice(), MUTEX_NEST_COUNT)
    }

    /// The thread that owns the lock, as an image holds it.
    pub open spec fn owner_thread_of(image: Seq<u8>) -> u64 {
        field::<Pointer>(image, MUTEX_OWNER_THREAD as int)
    }

    /// The thread that owns the lock.
    pub fn owner_thread(&self) -> (value: Pointer)
        ensures
            value@ == Self::owner_thread_of(self@),
            self@.len() == Self::layout_size(),
    {
        proof {
            use_type_invariant(self);
        }
        read_field::<Pointer>(self.image.as_slice(), MUTEX_OWNER_THREAD)
    }

    /// The handle of the lock, as an image holds it.
    pub open spec fn mutex_of(image: Seq<u8>) -> i32 {
        field::<i32>(image, MUTEX_MUTEX as int)
    }

    /// The handle of the lock.
    pub fn mutex(&self) -> (value: i32)
        ensures
            value@ == Self::mutex_of(self@),
            self@.len() == Self::layout_size(),
    {
        proof {
            use_type_invariant(self);
        }
        read_field::<i32>(self.image.as_slice(), MUTEX_MUTEX)
    }
}

/// Offset of the pointer to the table of virtual functions.
pub const SECTION_VPTR: usize = 0;

/// Offset of the heap that disposes of the section.
pub const SECTION_DISPOSER_HEAP: usize = 8;

/// Offset of the link in the list of disposers.
pub const SECTION_LIST_NODE: usize = 16;

/// Offset of the lock of the section.
pub const SECTION_CRITICAL_SECTION_INNER: usize = 32;

/// A critical section of the game, as it lies in memory.
pub struct CriticalSection {
    image: Vec<u8>,
}

impl View for CriticalSection {
    type V = Seq<u8>;

    closed spec fn view(&self) -> Seq<u8> {
        self.image@
    }
}

impl Clone for CriticalSection {
    fn clone(&self) -> (r: Self)
        ensures
            r@ == self@,
    {
        proof {
            use_type_invariant(self);
        }
        CriticalSection { image: copy_range(self.image.as_slice(), 0, self.image.len()) }
    }
}

impl Updatable for CriticalSection {
    open spec fn layout_size() -> usize {
        64
    }

    open spec fn decode(bytes: Seq<u8>) -> Seq<u8> {
        bytes
    }

    open spec fn encode(value: Seq<u8>) -> Seq<u8> {
        value
    }

    open spec fn representable(value: Seq<u8>) -> bool {
        value.len() == Self::layout_size()
    }

    proof fn lemma_layout(value: Seq<u8>) {
    }

    fn size() -> (n: usize) {
        64
    }

    fn from_bytes(bytes: &[u8]) -> (value: Self) {
        let value = CriticalSection { image: copy_range(bytes, 0, bytes.len()) };
        assert(bytes@.subrange(0, bytes@.len() as int) =~= bytes@);
        assert(Self::representable(value@));
        assert(value@ == Self::decode(bytes@));
        value
    }

    fn to_bytes(&self) -> (bytes: Vec<u8>) {
        proof {
            use_type_invariant(self);
        }
        let bytes = copy_range(self.image.as_slice(), 0, self.image.len());
        assert(self@.subrange(0, self@.len() as int) =~= self@);
        assert(Self::representable(self@));
        assert(bytes@ == Self::encode(self@));
        bytes
    }
}

impl CriticalSection {
    #[verifier::type_invariant]
    spec fn inv(self) -> bool {
        self.image@.len() == Self::layout_size()
    }

    /// The pointer to the table of virtual functions, as an image holds it.
    pub open spec fn vptr_of(image: Seq<u8>) -> u64 {
        field::<Pointer>(image, SECTION_VPTR as int)
    }

    /// The pointer to the table of virtual functions.
    pub fn vptr(&self) -> (value: Pointer)
        ensures
            value@ == Self::vptr_of(self@),
            self@.len() == Self::layout_size(),
    {
        proof {
            use_type_invariant(self);
        }
        read_field::<Pointer>(self.image.as_slice(), SECTION_VPTR)
    }

    /// The heap that disposes of the section, as an image holds it.
    pub open spec fn disposer_heap_of(image: Seq<u8>) -> u64 {
        field::<Pointer>(image, SECTION_DISPOSER_HEAP as int)
    }

    /// The heap that disposes of the section.
    pub fn disposer_heap(&self) -> (value: Pointer)
        ensures
            value@ == Self::disposer_heap_of(self@),
            self@.len() == Self::layout_size(),
    {
        proof {
            use_type_invariant(self);
        }
        read_field::<Pointer>(self.image.as_slice(), SECTION_DISPOSER_HEAP)
    }

    /// The link in the list of disposers, as an image holds it.
    pub open spec fn list_node_of(image: Seq<u8>) -> ListNode {
        field::<ListNode>(image, SECTION_LIST_NODE as int)
    }

    /// The link in the list of disposers.
    pub fn list_node(&self) -> (value: ListNode)
        ensures
            value@ == Self::list_node_of(self@),
            self@.len() == Self::layout_size(),
    {
        proof {
            use_type_invariant(self);
        }
        read_field::<ListNode>(self.image.as_slice(), SECTION_LIST_NODE)
    }

    /// The lock of the section, as an image holds it.
    pub open spec fn critical_section_inner_of(image: Seq<u8>) -> Seq<u8> {
        field::<MutexType>(image, SECTION_CRITICAL_SECTION_INNER as int)
    }

    /// The lock of the section.
    pub fn critical_section_inner(&self) -> (value: MutexType)
        ensures
            value@ == Self::critical_section_inner_of(self@),
            self@.len() == Self::layout_size(),
    {
        proof {
            use_type_invariant(self);
        }
        read_field::<MutexType>(self.image.as_slice(), SECTION_CRITICAL_SECTION_INNER)
    }
}

/// Offset of the item.
pub const GRABBED_ITEM: usize = 0;

/// Offset of the first flag of unknown meaning.
pub const GRABBED_FLAG_8: usize = 8;

/// Offset of the second flag of unknown meaning.
pub const GRABBED_FLAG_9: usize = 9;

/// An item that is held in the hands, as it lies in memory.
pub struct GrabbedItemInfo {
    image: Vec<u8>,
}

impl View for GrabbedItemInfo {
    type V = Seq<u8>;

    closed spec fn view(&self) -> Seq<u8> {
        self.image@
    }
}

impl Clone for GrabbedItemInfo {
    fn clone(&self) -> (r: Self)
        ensures
            r@ == self@,
    {
        proof {
            use_type_invariant(self);
        }
        GrabbedItemInfo { image: copy_range(self.image.as_slice(), 0, self.image.len()) }
    }
}

impl Updatable for GrabbedItemInfo {
    open spec fn layout_size() -> usize {
        16
    }

    open spec fn decode(bytes: Seq<u8>) -> Seq<u8> {
        bytes
    }

    open spec fn encode(value: Seq<u8>) -> Seq<u8> {
        value
    }

    open spec fn representable(value: Seq<u8>) -> bool {
        value.len() == Self::layout_size()
    }

    proof fn lemma_layout(value: Seq<u8>) {
    }

    fn size() -> (n: usize) {
        16
    }

    fn from_bytes(bytes: &[u8]) -> (value: Self) {
        let value = GrabbedItemInfo { image: copy_range(bytes, 0, bytes.len()) };
        assert(bytes@.subrange(0, bytes@.len() as int) =~= bytes@);
        assert(Self::representable(value@));
        assert(value@ == Self::decode(bytes@));
        value
    }

    fn to_bytes(&self) -> (bytes: Vec<u8>) {
        proof {
            use_type_invariant(self);
        }
        let bytes = copy_range(self.image.as_slice(), 0, self.image.len());
        assert(self@.subrange(0, self@.len() as int) =~= self@);
        assert(Self::representable(self@));
        assert(bytes@ == Self::encode(self@));
        bytes
    }
}

impl GrabbedItemInfo {
    #[verifier::type_invariant]
    spec fn inv(self) -> bool {
        self.image@.len() == Self::layout_size()
    }

    /// The item, as an image holds it.
    pub open spec fn item_of(image: Seq<u8>) -> u64 {
        field::<Pointer>(image, GRABBED_ITEM as int)
    }

    /// The item.
    pub fn item(&self) -> (value: Pointer)
        ensures
            value@ == Self::item_of(self@),
            self@.len() == Self::layout_size(),
    {
        proof {
            use_type_invariant(self);
        }
        read_field::<Pointer>(self.image.as_slice(), GRABBED_ITEM)
    }

    /// The first flag of unknown meaning, as an image holds it.
    pub open spec fn flag_8_of(image: Seq<u8>) -> bool {
        field::<bool>(image, GRABBED_FLAG_8 as int)
    }

    /// The first flag of unknown meaning.
    pub fn flag_8(&self) -> (value: bool)
        ensures
            value@ == Self::flag_8_of(self@),
            self@.len() == Self::layout_size(),
    {
        proof {
            use_type_invariant(self);
        }
        read_field::<bool>(self.image.as_slice(), GRABBED_FLAG_8)
    }

    /// The second flag of unknown meaning, as an image holds it.
    pub open spec fn flag_9_of(image: Seq<u8>) -> bool {
        field::<bool>(image, GRABBED_FLAG_9 as int)
    }

    /// The second flag of unknown meaning.
    pub fn flag_9(&self) -> (value: bool)
        ensures
            value@ == Self::flag_9_of(self@),
            self@.len() == Self::layout_size(),
    {
        proof {
            use_type_invariant(self);
        }
        read_field::<bool>(self.image.as_slice(), GRABBED_FLAG_9)
    }
}

/// Offset of the kinds of bonus, one bit each.
pub const MODIFIER_FLAGS: usize = 0;

/// Offset of the strength of the bonus.
pub const MODIFIER_VALUE: usize = 4;

/// The bonus that a new weapon is to carry, as it lies in memory.
pub struct WeaponModifierInfo {
    image: Vec<u8>,
}

impl View for WeaponModifierInfo {
    type V = Seq<u8>;

    closed spec fn view(&self) -> Seq<u8> {
        self.image@
    }
}

impl Clone for WeaponModifierInfo {
    fn clone(&self) -> (r: Self)
        ensures
            r@ == self@,
    {
        proof {
            use_type_invariant(self);
        }
        WeaponModifierInfo { image: copy_range(self.image.as_slice(), 0, self.image.len()) }
    }
}

impl Updatable for WeaponModifierInfo {
    open spec fn layout_size() -> usize {
        8
    }

    open spec fn decode(bytes: Seq<u8>) -> Seq<u8> {
        bytes
    }

    open spec fn encode(value: Seq<u8>) -> Seq<u8> {
        value
    }

    open spec fn representable(value: Seq<u8>) -> bool {
        value.len() == Self::layout_size()
    }

    proof fn lemma_layout(value: Seq<u8>) {
    }

    fn size() -> (n: usize) {
        8
    }

    fn from_bytes(bytes: &[u8]) -> (value: Self) {
        let value = WeaponModifierInfo { image: copy_range(bytes, 0, bytes.len()) };
        assert(bytes@.subrange(0, bytes@.len() as int) =~= bytes@);
        assert(Self::representable(value@));
        assert(value@ == Self::decode(bytes@));
        value
    }

    fn to_bytes(&self) -> (bytes: Vec<u8>) {
        proof {
            use_type_invariant(self);
        }
        let bytes = copy_range(self.image.as_slice(), 0, self.image.len());
        assert(self@.subrange(0, self@.len() as int) =~= self@);
        assert(Self::representable(self@));
        assert(bytes@ == Self::encode(self@));
        bytes
    }
}

impl WeaponModifierInfo {
    #[verifier::type_invariant]
    spec fn inv(self) -> bool {
        self.image@.len() == Self::layout_size()
    }

    /// The kinds of bonus, one bit each, as an image holds it.
    pub open spec fn flags_of(image: Seq<u8>) -> u32 {
        field::<u32>(image, MODIFIER_FLAGS as int)
    }

    /// The kinds of bonus, one bit each.
    pub fn flags(&self) -> (value: u32)
        ensures
            value@ == Self::flags_of(self@),
            self@.len() == Self::layout_size(),
    {
        proof {
            use_type_invariant(self);
        }
        read_field::<u32>(self.image.as_slice(), MODIFIER_FLAGS)
    }

    /// The strength of the bonus, as an image holds it.
    pub open spec fn value_of(image: Seq<u8>) -> i32 {
        field::<i32>(image, MODIFIER_VALUE as int)
    }

    /// The strength of the bonus.
    pub fn value(&self) -> (value: i32)
        ensures
            value@ == Self::value_of(self@),
            self@.len() == Self::layout_size(),
    {
        proof {
            use_type_invariant(self);
        }
        read_field::<i32>(self.image.as_slice(), MODIFIER_VALUE)
    }
}

/// A set of flags of the kind `Enum`, one bit each, as it lies in memory.
pub struct TypedBitFlag<Enum> {
    pub bits: u32,
    pub phantom: PhantomData<Enum>,
}

impl<Enum> View for TypedBitFlag<Enum> {
    type V = u32;

    open spec fn view(&self) -> u32 {
        self.bits
    }
}

impl<Enum> Clone for TypedBitFlag<Enum> {
    fn clone(&self) -> (r: Self)
        ensures
            r == *self,
    {
        *self
    }
}

impl<Enum> Copy for TypedBitFlag<Enum> {

}

impl<Enum> Updatable for TypedBitFlag<Enum> {
    open spec fn layout_size() -> usize {
        4
    }

    open spec fn decode(bytes: Seq<u8>) -> u32 {
        u32::decode(bytes)
    }

    open spec fn encode(value: u32) -> Seq<u8> {
        u32::encode(value)
    }

    open spec fn representable(value: u32) -> bool {
        true
    }

    proof fn lemma_layout(value: u32) {
        u32::lemma_layout(value);
    }

    fn size() -> (n: usize) {
        4
    }

    fn from_bytes(bytes: &[u8]) -> (value: Self) {
        let value = TypedBitFlag { bits: u32::from_bytes(bytes), phantom: PhantomData };
        assert(Self::representable(value@));
        assert(value@ == Self::decode(bytes@));
        value
    }

    fn to_bytes(&self) -> (bytes: Vec<u8>) {
        let bytes = self.bits.to_bytes();
        assert(Self::representable(self@));
        assert(bytes@ == Self::encode(self@));
        bytes
    }
}

/// `N` values of type `T`, one after the other, as they lie in memory. The
/// view is the whole byte image.
pub struct SafeArray<T: Updatable, const N: usize> {
    image: Vec<u8>,
    phantom: PhantomData<T>,
}

impl<T: Updatable, const N: usize> View for SafeArray<T, N> {
    type V = Seq<u8>;

    closed spec fn view(&self) -> Seq<u8> {
        self.image@
    }
}

impl<T: Updatable, const N: usize> Clone for SafeArray<T, N> {
    fn clone(&self) -> (r: Self)
        ensures
            r@ == self@,
    {
        proof {
            use_type_invariant(self);
        }
        SafeArray { image: copy_range(self.image.as_slice(), 0, self.image.len()), phantom: PhantomData }
    }
}

impl<T: Updatable, const N: usize> Updatable for SafeArray<T, N> {
    open spec fn layout_size() -> usize {
        if N * T::layout_size() <= usize::MAX {
            (N * T::layout_size()) as usize
        } else {
            usize::MAX
        }
    }

    open spec fn decode(bytes: Seq<u8>) -> Seq<u8> {
        bytes
    }

    open spec fn encode(value: Seq<u8>) -> Seq<u8> {
        value
    }

    open spec fn representable(value: Seq<u8>) -> bool {
        value.len() == Self::layout_size()
    }

    proof fn lemma_layout(value: Seq<u8>) {
    }

    fn size() -> (n: usize) {
        match N.checked_mul(T::size()) {
            Some(total) => total,
            None => usize::MAX,
        }
    }

    fn from_bytes(bytes: &[u8]) -> (value: Self) {
        let value = SafeArray { image: copy_range(bytes, 0, bytes.len()), phantom: PhantomData };
        assert(bytes@.subrange(0, bytes@.len() as int) =~= bytes@);
        assert(Self::representable(value@));
        assert(value@ == Self::decode(bytes@));
        value
    }

    fn to_bytes(&self) -> (bytes: Vec<u8>) {
        proof {
            use_type_invariant(self);
        }
        let bytes = copy_range(self.image.as_slice(), 0, self.image.len());
        assert(self@.subrange(0, self@.len() as int) =~= self@);
        assert(Self::representable(self@));
        assert(bytes@ == Self::encode(self@));
        bytes
    }
}

impl<T: Updatable, const N: usize> SafeArray<T, N> {
    #[verifier::type_invariant]
    spec fn inv(self) -> bool {
        self.image@.len() == Self::layout_size()
    }

    /// The value at index `i`, as an image holds it.
    pub open spec fn element_of(image: Seq<u8>, i: int) -> T::V {
        field::<T>(image, i * T::layout_size())
    }

    /// The value at index `i`; nothing where the array has no such index,
    /// and where the array is larger than memory can be.
    pub fn get(&self, i: usize) -> (value: Option<T>)
        ensures
            match value {
                Some(value) => i < N && value@ == Self::element_of(self@, i as int),
                None => i >= N || N * T::layout_size() > usize::MAX,
            },
    {
        proof {
            use_type_invariant(self);
        }
        if i >= N {
            return None;
        }
        let size = T::size();
        assert(0 <= i * size && i * size + size <= N * size) by (nonlinear_arith)
            requires
                0 <= i < N,
                0 <= size,
        ;
        match N.checked_mul(size) {
            None => None,
            Some(_) => Some(read_field::<T>(self.image.as_slice(), i * size)),
        }
    }
}

/// A slot of a slab together with the pointer to the value in it, as they
/// lie in memory: the value first, the pointer at the next whole word. The
/// view is the whole byte image.
pub struct ObjArrayWorkNode<T: Updatable> {
    image: Vec<u8>,
    phantom: PhantomData<T>,
}

impl<T: Updatable> View for ObjArrayWorkNode<T> {
    type V = Seq<u8>;

    closed spec fn view(&self) -> Seq<u8> {
        self.image@
    }
}

impl<T: Updatable> Clone for ObjArrayWorkNode<T> {
    fn clone(&self) -> (r: Self)
        ensures
            r@ == self@,
    {
        proof {
            use_type_invariant(self);
        }
        ObjArrayWorkNode {
            image: copy_range(self.image.as_slice(), 0, self.image.len()),
            phantom: PhantomData,
        }
    }
}

impl<T: Updatable> Updatable for ObjArrayWorkNode<T> {
    open spec fn layout_size() -> usize {
        if Self::pointer_offset() + 8 <= usize::MAX {
            (Self::pointer_offset() + 8) as usize
        } else {
            usize::MAX
        }
    }

    open spec fn decode(bytes: Seq<u8>) -> Seq<u8> {
        bytes
    }

    open spec fn encode(value: Seq<u8>) -> Seq<u8> {
        value
    }

    open spec fn representable(value: Seq<u8>) -> bool {
        value.len() == Self::layout_size()
    }

    proof fn lemma_layout(value: Seq<u8>) {
    }

    fn size() -> (n: usize) {
        match T::size().checked_add(7) {
            None => usize::MAX,
            Some(sum) => match (sum / 8 * 8).checked_add(8) {
                None => usize::MAX,
                Some(total) => total,
            },
        }
    }

    fn from_bytes(bytes: &[u8]) -> (value: Self) {
        let value = ObjArrayWorkNode { image: copy_range(bytes, 0, bytes.len()), phantom: PhantomData };
        assert(bytes@.subrange(0, bytes@.len() as int) =~= bytes@);
        assert(Self::representable(value@));
        assert(value@ == Self::decode(bytes@));
        value
    }

    fn to_bytes(&self) -> (bytes: Vec<u8>) {
        proof {
            use_type_invariant(self);
        }
        let bytes = copy_range(self.image.as_slice(), 0, self.image.len());
        assert(self@.subrange(0, self@.len() as int) =~= self@);
        assert(Self::representable(self@));
        assert(bytes@ == Self::encode(self@));
        bytes
    }
}

impl<T: Updatable> ObjArrayWorkNode<T> {
    #[verifier::type_invariant]
    spec fn inv(self) -> bool {
        self.image@.len() == Self::layout_size()
    }

    /// Offset of the pointer: the size of the value in whole words.
    pub open spec fn pointer_offset() -> int {
        (T::layout_size() + 7) / 8 * 8
    }

    /// The value, as an image holds it.
    pub open spec fn item_of(image: Seq<u8>) -> T::V {
        field::<T>(image, 0)
    }

    /// The pointer to the value, as an image holds it.
    pub open spec fn pointer_of(image: Seq<u8>) -> u64 {
        field::<Pointer>(image, Self::pointer_offset())
    }

    /// The value.
    pub fn item(&self) -> (value: T)
        ensures
            value@ == Self::item_of(self@),
    {
        proof {
            use_type_invariant(self);
        }
        let len = self.image.len();
        read_field::<T>(self.image.as_slice(), 0)
    }

    /// The pointer to the value; nothing where the value is larger than
    /// memory can be.
    pub fn pointer(&self) -> (value: Option<Pointer<T>>)
        ensures
            match value {
                Some(value) => value@ == Self::pointer_of(self@),
                None => Self::pointer_offset() + 8 > usize::MAX,
            },
    {
        proof {
            use_type_invariant(self);
        }
        match T::size().checked_add(7) {
            None => None,
            Some(sum) => match (sum / 8 * 8).checked_add(8) {
                None => None,
                Some(_) => Some(read_field::<Pointer>(self.image.as_slice(), sum / 8 * 8).cast()),
            },
        }
    }
}

/// An item as a save file holds it.
pub struct GameDataItem {
    pub name: String,
    pub equipped: bool,
    pub value: i32,
    pub data: Data,
}

} // verus!
