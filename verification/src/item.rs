//! An item of the pouch, as the game builds it in memory.
use vstd::prelude::*;
use vstd::string::StringSliceAdditionalSpecFns;

use crate::error::Error;
use crate::image::{copy_range, field, lemma_field_loaded, read_field};
use crate::list::{link, ListNode};
use crate::script::{
    applied, lemma_applied_frame, lemma_applied_stored, lemma_run_ok, new_script, push_store,
    refreshed, run, run_stores, stores_apart, stores_in_window, stores_of, write_refresh,
};
use crate::mem::{
    covered, in_window, lemma_load_same, lemma_read_after_write, lemma_same_but_apart,
    lemma_same_bytes_chain, lemma_same_bytes_part, lemma_written_covered, lemma_written_same_bytes,
    load, Memory, Pointer, same_but, same_bytes, shifted, store, wrap, written,
};
use crate::slab::FixedObjArray;
use crate::string::{FixedSafeString, holds_text, STRING_BUFFER, STRING_BUFFER_SIZE, STRING_TOP};
use crate::traits::{Constructor, Updatable};
use crate::types::{Data, ItemUse, PouchItemType};

verus! {

/// The string that names an item, and each of its ingredients.
pub type ItemName = FixedSafeString<64>;

/// The slab that holds the names of the ingredients of an item.
pub type Ingredients = FixedObjArray<FixedSafeString<64>, 5>;

/// Offset, in the data of an item, of the bits of the effect of a cooked item.
pub const ITEM_EFFECT_ID: usize = 140;

/// Offset, in the data of an item, of the bits of the level of that effect.
pub const ITEM_EFFECT_LEVEL: usize = 144;

/// The bits of the number, with a fraction, that stands for no effect: minus one.
pub const NO_EFFECT_BITS: u32 = 0xbf80_0000;

/// Offset of the pointer to the table of virtual functions.
pub const ITEM_VPTR: usize = 0;

/// Offset of the link in the list of items.
pub const ITEM_LIST_NODE: usize = 8;

/// Offset of the kind of the item.
pub const ITEM_ITEM_TYPE: usize = 24;

/// Offset of the use of the item.
pub const ITEM_ITEM_USE: usize = 28;

/// Offset of the value of the item: its durability, or how many there are.
pub const ITEM_VALUE: usize = 32;

/// Offset of whether the item is equipped.
pub const ITEM_EQUIPPED: usize = 36;

/// Offset of whether the item shows in the inventory.
pub const ITEM_IN_INVENTORY: usize = 37;

/// Offset of the name of the item.
pub const ITEM_NAME: usize = 40;

/// Offset of what the item carries besides its value.
pub const ITEM_DATA: usize = 128;

/// Offset of the names of the ingredients.
pub const ITEM_INGREDIENTS: usize = 152;

/// An item of the pouch, as it lies in memory. The view is the whole byte
/// image.
pub struct PouchItem {
    image: Vec<u8>,
}

impl View for PouchItem {
    type V = Seq<u8>;

    closed spec fn view(&self) -> Seq<u8> {
        self.image@
    }
}

impl Clone for PouchItem {
    fn clone(&self) -> (r: Self)
        ensures
            r@ == self@,
    {
        proof {
            use_type_invariant(self);
        }
        PouchItem { image: copy_range(self.image.as_slice(), 0, self.image.len()) }
    }
}

impl Updatable for PouchItem {
    open spec fn layout_size() -> usize {
        664
    }

    open spec fn decode(bytes: Seq<u8>) -> Seq<u8> {
        bytes
    }

    open spec fn encode(value: Seq<u8>) -> Seq<u8> {
        value
    }

    open spec fn representable(value: Seq<u8>) -> bool {
        value.len() == Self::layout_size()
    }

    proof fn lemma_layout(value: Seq<u8>) {
    }

    fn size() -> (n: usize) {
        664
    }

    fn from_bytes(bytes: &[u8]) -> (value: Self) {
        let value = PouchItem { image: copy_range(bytes, 0, bytes.len()) };
        assert(bytes@.subrange(0, bytes@.len() as int) =~= bytes@);
        assert(Self::representable(value@));
        assert(value@ == Self::decode(bytes@));
        value
    }

    fn to_bytes(&self) -> (bytes: Vec<u8>) {
        proof {
            use_type_invariant(self);
        }
        let bytes = copy_range(self.image.as_slice(), 0, self.image.len());
        assert(self@.subrange(0, self@.len() as int) =~= self@);
        assert(Self::representable(self@));
        assert(bytes@ == Self::encode(self@));
        bytes
    }
}

impl PouchItem {
    #[verifier::type_invariant]
    spec fn inv(self) -> bool {
        self.image@.len() == Self::layout_size()
    }

    /// The pointer to the table of virtual functions, as an image holds it.
    pub open spec fn vptr_of(image: Seq<u8>) -> u64 {
        field::<Pointer>(image, ITEM_VPTR as int)
    }

    /// The pointer to the table of virtual functions.
    pub fn vptr(&self) -> (value: Pointer)
        ensures
            value@ == Self::vptr_of(self@),
            self@.len() == Self::layout_size(),
    {
        proof {
            use_type_invariant(self);
        }
        read_field::<Pointer>(self.image.as_slice(), ITEM_VPTR)
    }

    /// The link in the list of items, as an image holds it.
    pub open spec fn list_node_of(image: Seq<u8>) -> ListNode {
        field::<ListNode>(image, ITEM_LIST_NODE as int)
    }

    /// The link in the list of items.
    pub fn list_node(&self) -> (value: ListNode)
        ensures
            value@ == Self::list_node_of(self@),
            self@.len() == Self::layout_size(),
    {
        proof {
            use_type_invariant(self);
        }
        read_field::<ListNode>(self.image.as_slice(), ITEM_LIST_NODE)
    }

    /// The kind of the item, as an image holds it.
    pub open spec fn item_type_of(image: Seq<u8>) -> PouchItemType {
        field::<PouchItemType>(image, ITEM_ITEM_TYPE as int)
    }

    /// The kind of the item.
    pub fn item_type(&self) -> (value: PouchItemType)
        ensures
            value@ == Self::item_type_of(self@),
            self@.len() == Self::layout_size(),
    {
        proof {
            use_type_invariant(self);
        }
        read_field::<PouchItemType>(self.image.as_slice(), ITEM_ITEM_TYPE)
    }

    /// The use of the item, as an image holds it.
    pub open spec fn item_use_of(image: Seq<u8>) -> ItemUse {
        field::<ItemUse>(image, ITEM_ITEM_USE as int)
    }

    /// The use of the item.
    pub fn item_use(&self) -> (value: ItemUse)
        ensures
            value@ == Self::item_use_of(self@),
            self@.len() == Self::layout_size(),
    {
        proof {
            use_type_invariant(self);
        }
        read_field::<ItemUse>(self.image.as_slice(), ITEM_ITEM_USE)
    }

    /// The value of the item: its durability, or how many there are, as an image holds it.
    pub open spec fn value_of(image: Seq<u8>) -> i32 {
        field::<i32>(image, ITEM_VALUE as int)
    }

    /// The value of the item: its durability, or how many there are.
    pub fn value(&self) -> (value: i32)
        ensures
            value@ == Self::value_of(self@),
            self@.len() == Self::layout_size(),
    {
        proof {
            use_type_invariant(self);
        }
        read_field::<i32>(self.image.as_slice(), ITEM_VALUE)
    }

    /// Whether the item is equipped, as an image holds it.
    pub open spec fn equipped_of(image: Seq<u8>) -> bool {
        field::<bool>(image, ITEM_EQUIPPED as int)
    }

    /// Whether the item is equipped.
    pub fn equipped(&self) -> (value: bool)
        ensures
            value@ == Self::equipped_of(self@),
            self@.len() == Self::layout_size(),
    {
        proof {
            use_type_invariant(self);
        }
        read_field::<bool>(self.image.as_slice(), ITEM_EQUIPPED)
    }

    /// Whether the item shows in the inventory, as an image holds it.
    pub open spec fn in_inventory_of(image: Seq<u8>) -> bool {
        field::<bool>(image, ITEM_IN_INVENTORY as int)
    }

    /// Whether the item shows in the inventory.
    pub fn in_inventory(&self) -> (value: bool)
        ensures
            value@ == Self::in_inventory_of(self@),
            self@.len() == Self::layout_size(),
    {
        proof {
            use_type_invariant(self);
        }
        read_field::<bool>(self.image.as_slice(), ITEM_IN_INVENTORY)
    }

    /// The name of the item, as an image holds it.
    pub open spec fn name_of(image: Seq<u8>) -> Seq<u8> {
        field::<ItemName>(image, ITEM_NAME as int)
    }

    /// The name of the item.
    pub fn name(&self) -> (value: ItemName)
        ensures
            value@ == Self::name_of(self@),
            self@.len() == Self::layout_size(),
    {
        proof {
            use_type_invariant(self);
        }
        read_field::<ItemName>(self.image.as_slice(), ITEM_NAME)
    }

    /// What the item carries besides its value, as an image holds it.
    pub open spec fn data_of(image: Seq<u8>) -> Seq<u8> {
        field::<Data>(image, ITEM_DATA as int)
    }

    /// What the item carries besides its value.
    pub fn data(&self) -> (value: Data)
        ensures
            value@ == Self::data_of(self@),
            self@.len() == Self::layout_size(),
    {
        proof {
            use_type_invariant(self);
        }
        read_field::<Data>(self.image.as_slice(), ITEM_DATA)
    }

    /// The names of the ingredients, as an image holds it.
    pub open spec fn ingredients_of(image: Seq<u8>) -> Seq<u8> {
        field::<Ingredients>(image, ITEM_INGREDIENTS as int)
    }

    /// The names of the ingredients.
    pub fn ingredients(&self) -> (value: Ingredients)
        ensures
            value@ == Self::ingredients_of(self@),
            self@.len() == Self::layout_size(),
    {
        proof {
            use_type_invariant(self);
        }
        read_field::<Ingredients>(self.image.as_slice(), ITEM_INGREDIENTS)
    }
}

/// The image of a structure of `len` bytes that are all zero.
pub open spec fn zeros(len: nat) -> Seq<u8> {
    Seq::new(len, |i: int| 0u8)
}

/// The data of an item with every byte zero.
pub fn blank_data() -> (data: Data)
    ensures
        data@ == zeros(20),
{
    let mut image: Vec<u8> = Vec::new();
    let mut i: usize = 0;
    while i < 20
        invariant
            0 <= i <= 20,
            image@ == zeros(i as nat),
        decreases 20 - i,
    {
        image.push(0);
        assert(image@ =~= zeros((i + 1) as nat));
        i += 1;
    }
    Data::from_bytes(image.as_slice())
}

impl PouchItem {
    /// The stores that begin the building of an item at `this`: its link is
    /// cleared, it is of no kind and no use, its value is zero, and it is not
    /// equipped but shows in the inventory.
    pub open spec fn ctor_head(this: u64) -> Seq<(u64, Seq<u8>)> {
        seq![
            (wrap(this + ITEM_LIST_NODE), ListNode::encode(link(0, 0))),
            (wrap(this + ITEM_ITEM_TYPE), PouchItemType::encode(PouchItemType::Invalid)),
            (wrap(this + ITEM_ITEM_USE), ItemUse::encode(ItemUse::Invalid)),
            (wrap(this + ITEM_VALUE), i32::encode(0)),
            (wrap(this + ITEM_EQUIPPED), bool::encode(false)),
            (wrap(this + ITEM_IN_INVENTORY), bool::encode(true)),
        ]
    }

    /// The stores that state that an item at `this` has no effect.
    pub open spec fn ctor_effect(this: u64) -> Seq<(u64, Seq<u8>)> {
        seq![
            (wrap(this + ITEM_EFFECT_ID), u32::encode(NO_EFFECT_BITS)),
            (wrap(this + ITEM_EFFECT_LEVEL), u32::encode(0)),
        ]
    }

    /// What taking one slot for the name of an ingredient, and building an
    /// empty name in it, gives: the bytes afterwards, the item as it then
    /// lies at `this`, and the slab as it then lies in the item.
    #[verifier::opaque]
    pub open spec fn ingredient_spec(slab: Seq<u8>, bytes: Map<int, u8>, this: u64) -> Result<
        (Map<int, u8>, Seq<u8>, Seq<u8>),
        Error,
    > {
        match Ingredients::acquire_spec(slab, bytes, wrap(this + ITEM_INGREDIENTS)) {
            Err(e) => Err(e),
            Ok((b1, slab1, slot)) => match load::<ItemName>(b1, slot) {
                Err(e) => Err(e),
                Ok(_) => match ItemName::ctor_spec(b1, slot) {
                    Err(e) => Err(e),
                    Ok((b2, _)) => match refreshed::<Pointer, PouchItem>(
                        b2,
                        wrap(
                            Ingredients::ptrs_of(slab1) + 8 * (if Ingredients::ptr_num_of(slab1)
                                == i32::MIN {
                                i32::MAX as int
                            } else {
                                Ingredients::ptr_num_of(slab1) - 1
                            }),
                        ),
                        slot,
                        this,
                    ) {
                        Err(e) => Err(e),
                        Ok((b3, item)) => Ok((b3, item, slab1)),
                    },
                },
            },
        }
    }

    /// What taking slots for `rounds` names of ingredients, one after the
    /// other, gives.
    pub open spec fn ingredients_spec(
        item: Seq<u8>,
        slab: Seq<u8>,
        bytes: Map<int, u8>,
        this: u64,
        rounds: nat,
    ) -> Result<(Map<int, u8>, Seq<u8>, Seq<u8>), Error>
        decreases rounds,
    {
        if rounds == 0 {
            Ok((bytes, item, slab))
        } else {
            match Self::ingredient_spec(slab, bytes, this) {
                Err(e) => Err(e),
                Ok((after, fresh, slab1)) => Self::ingredients_spec(
                    fresh,
                    slab1,
                    after,
                    this,
                    (rounds - 1) as nat,
                ),
            }
        }
    }

    /// What `ctor` gives: the bytes afterwards and the item as it then lies
    /// at `this`.
    pub open spec fn ctor_spec(image: Seq<u8>, bytes: Map<int, u8>, this: u64) -> Result<
        (Map<int, u8>, Seq<u8>),
        Error,
    > {
        match run::<PouchItem>(bytes, image, this, Self::ctor_head(this)) {
            Err(e) => Err(e),
            Ok((b1, _)) => match ItemName::ctor_spec(b1, wrap(this + ITEM_NAME)) {
                Err(e) => Err(e),
                Ok((b2, _)) => match refreshed::<Data, PouchItem>(
                    b2,
                    wrap(this + ITEM_DATA),
                    zeros(20),
                    this,
                ) {
                    Err(e) => Err(e),
                    Ok((b3, s3)) => match Ingredients::ctor_spec(
                        Self::ingredients_of(s3),
                        b3,
                        wrap(this + ITEM_INGREDIENTS),
                    ) {
                        Err(e) => Err(e),
                        Ok((b4, slab)) => match run::<PouchItem>(
                            b4,
                            s3,
                            this,
                            Self::ctor_effect(this),
                        ) {
                            Err(e) => Err(e),
                            Ok((b5, s5)) => match Self::ingredients_spec(s5, slab, b5, this, 5) {
                                Err(e) => Err(e),
                                Ok((b6, s6, _)) => Ok((b6, s6)),
                            },
                        },
                    },
                },
            },
        }
    }

    /// Takes one slot for the name of an ingredient and builds an empty name
    /// in it.
    fn add_ingredient(
        &mut self,
        memory: &mut Memory,
        this: Pointer<Self>,
        slab: &mut Ingredients,
    ) -> (r: Result<(), Error>)
        ensures
            final(memory).wf(),
            r is Ok ==> load::<PouchItem>(final(memory).bytes(), this.address) == Ok::<
                Seq<u8>,
                Error,
            >(final(self)@),
            match r {
                Ok(()) => Self::ingredient_spec(old(slab)@, old(memory).bytes(), this.address)
                    == Ok::<(Map<int, u8>, Seq<u8>, Seq<u8>), Error>(
                    (final(memory).bytes(), final(self)@, final(slab)@),
                ),
                Err(e) => Self::ingredient_spec(old(slab)@, old(memory).bytes(), this.address)
                    == Err::<(Map<int, u8>, Seq<u8>, Seq<u8>), Error>(e),
            },
    {
        reveal(PouchItem::ingredient_spec);
        let place: Pointer<Ingredients> = Pointer::new(
            shifted(this.address, ITEM_INGREDIENTS as i64),
        );
        let slot = match slab.acquire(memory, place) {
            Err(e) => {
                return Err(e);
            },
            Ok(slot) => slot,
        };
        let mut text = match slot.read(memory) {
            Err(e) => {
                return Err(e);
            },
            Ok(text) => text,
        };
        if let Err(e) = text.ctor(memory, slot) {
            return Err(e);
        }
        let index = slab.ptr_num().wrapping_sub(1);
        let entry = shifted(slab.ptrs().address, 8 * (index as i64));
        let taken: Pointer = slot.cast();
        write_refresh(memory, entry, taken, self, &this)
    }
}

impl PouchItem {
    /// Makes the stores that begin the building of an item.
    fn begin(&mut self, memory: &mut Memory, this: Pointer<Self>) -> (r: Result<(), Error>)
        ensures
            final(memory).wf(),
            match r {
                Ok(()) => run::<PouchItem>(
                    old(memory).bytes(),
                    old(self)@,
                    this.address,
                    Self::ctor_head(this.address),
                ) == Ok::<(Map<int, u8>, Seq<u8>), Error>((final(memory).bytes(), final(self)@)),
                Err(e) => run::<PouchItem>(
                    old(memory).bytes(),
                    old(self)@,
                    this.address,
                    Self::ctor_head(this.address),
                ) == Err::<(Map<int, u8>, Seq<u8>), Error>(e),
            },
    {
        let mut head = new_script();
        push_store(&mut head, shifted(this.address, ITEM_LIST_NODE as i64), &ListNode::default());
        push_store(&mut head, shifted(this.address, ITEM_ITEM_TYPE as i64), &PouchItemType::Invalid);
        push_store(&mut head, shifted(this.address, ITEM_ITEM_USE as i64), &ItemUse::Invalid);
        push_store(&mut head, shifted(this.address, ITEM_VALUE as i64), &0i32);
        push_store(&mut head, shifted(this.address, ITEM_EQUIPPED as i64), &false);
        push_store(&mut head, shifted(this.address, ITEM_IN_INVENTORY as i64), &true);
        assert(stores_of(head@) == Self::ctor_head(this.address));
        run_stores(memory, self, &this, &head)
    }

    /// Makes the stores that state that an item has no effect.
    fn mark_no_effect(&mut self, memory: &mut Memory, this: Pointer<Self>) -> (r: Result<
        (),
        Error,
    >)
        ensures
            final(memory).wf(),
            match r {
                Ok(()) => run::<PouchItem>(
                    old(memory).bytes(),
                    old(self)@,
                    this.address,
                    Self::ctor_effect(this.address),
                ) == Ok::<(Map<int, u8>, Seq<u8>), Error>((final(memory).bytes(), final(self)@)),
                Err(e) => run::<PouchItem>(
                    old(memory).bytes(),
                    old(self)@,
                    this.address,
                    Self::ctor_effect(this.address),
                ) == Err::<(Map<int, u8>, Seq<u8>), Error>(e),
            },
    {
        let mut effect = new_script();
        push_store(&mut effect, shifted(this.address, ITEM_EFFECT_ID as i64), &NO_EFFECT_BITS);
        push_store(&mut effect, shifted(this.address, ITEM_EFFECT_LEVEL as i64), &0u32);
        assert(stores_of(effect@) == Self::ctor_effect(this.address));
        run_stores(memory, self, &this, &effect)
    }

    /// Takes slots for five names of ingredients.
    fn add_ingredients(
        &mut self,
        memory: &mut Memory,
        this: Pointer<Self>,
        slab: &mut Ingredients,
    ) -> (r: Result<(), Error>)
        ensures
            final(memory).wf(),
            r is Ok ==> load::<PouchItem>(final(memory).bytes(), this.address) == Ok::<
                Seq<u8>,
                Error,
            >(final(self)@),
            match r {
                Ok(()) => Self::ingredients_spec(
                    old(self)@,
                    old(slab)@,
                    old(memory).bytes(),
                    this.address,
                    5,
                ) == Ok::<(Map<int, u8>, Seq<u8>, Seq<u8>), Error>(
                    (final(memory).bytes(), final(self)@, final(slab)@),
                ),
                Err(e) => Self::ingredients_spec(
                    old(self)@,
                    old(slab)@,
                    old(memory).bytes(),
                    this.address,
                    5,
                ) == Err::<(Map<int, u8>, Seq<u8>, Seq<u8>), Error>(e),
            },
    {
        proof {
            use_type_invariant(&*memory);
        }
        let mut round: usize = 0;
        while round < 5
            invariant
                0 <= round <= 5,
                memory.wf(),
                round > 0 ==> load::<PouchItem>(memory.bytes(), this.address) == Ok::<
                    Seq<u8>,
                    Error,
                >(self@),
                Self::ingredients_spec(
                    old(self)@,
                    old(slab)@,
                    old(memory).bytes(),
                    this.address,
                    5,
                ) == Self::ingredients_spec(
                    self@,
                    slab@,
                    memory.bytes(),
                    this.address,
                    (5 - round) as nat,
                ),
            decreases 5 - round,
        {
            if let Err(e) = self.add_ingredient(memory, this, slab) {
                return Err(e);
            }
            round += 1;
        }
        Ok(())
    }
}

impl Constructor for PouchItem {
    /// Builds an item at `this` that is of no kind, has an empty name and no
    /// effect, and holds five empty names for ingredients.
    fn ctor(&mut self, memory: &mut Memory, this: Pointer<Self>) -> (r: Result<(), Error>)
        ensures
            match r {
                Ok(()) => Self::ctor_spec(old(self)@, old(memory).bytes(), this.address) == Ok::<
                    (Map<int, u8>, Seq<u8>),
                    Error,
                >((final(memory).bytes(), final(self)@)),
                Err(e) => Self::ctor_spec(old(self)@, old(memory).bytes(), this.address) == Err::<
                    (Map<int, u8>, Seq<u8>),
                    Error,
                >(e),
            },
    {
        if let Err(e) = self.begin(memory, this) {
            return Err(e);
        }
        let mut name = self.name();
        if let Err(e) = name.ctor(memory, Pointer::new(shifted(this.address, ITEM_NAME as i64))) {
            return Err(e);
        }
        if let Err(e) = write_refresh(
            memory,
            shifted(this.address, ITEM_DATA as i64),
            blank_data(),
            self,
            &this,
        ) {
            return Err(e);
        }
        let mut slab = self.ingredients();
        if let Err(e) = slab.ctor(
            memory,
            Pointer::new(shifted(this.address, ITEM_INGREDIENTS as i64)),
        ) {
            return Err(e);
        }
        if let Err(e) = self.mark_no_effect(memory, this) {
            return Err(e);
        }
        self.add_ingredients(memory, this, &mut slab)
    }
}

impl PouchItem {
    /// The stores that state the kind and the value of the item at `this`.
    pub open spec fn fill_script(this: u64, kind: PouchItemType, value: i32) -> Seq<(u64, Seq<u8>)> {
        seq![
            (wrap(this + ITEM_ITEM_TYPE), PouchItemType::encode(kind)),
            (wrap(this + ITEM_VALUE), i32::encode(value)),
        ]
    }

    /// What `fill` gives: the bytes afterwards and the item as it then lies
    /// at `this`.
    pub open spec fn fill_spec(
        image: Seq<u8>,
        bytes: Map<int, u8>,
        this: u64,
        name: Seq<u8>,
        kind: PouchItemType,
        value: i32,
    ) -> Result<(Map<int, u8>, Seq<u8>), Error> {
        match run::<PouchItem>(bytes, image, this, Self::fill_script(this, kind, value)) {
            Err(e) => Err(e),
            Ok((b1, s1)) => match ItemName::assign_spec(
                Self::name_of(s1),
                b1,
                wrap(this + ITEM_NAME),
                name,
            ) {
                Err(e) => Err(e),
                Ok((b2, _)) => match load::<PouchItem>(b2, this) {
                    Err(e) => Err(e),
                    Ok(s2) => Ok((b2, s2)),
                },
            },
        }
    }

    /// Makes the item at `this` an item of the kind `kind`, the value
    /// `value` and the name `name`, and reads it again.
    pub fn fill(
        &mut self,
        memory: &mut Memory,
        this: Pointer<Self>,
        name: &str,
        kind: PouchItemType,
        value: i32,
    ) -> (r: Result<(), Error>)
        ensures
            final(memory).wf(),
            match r {
                Ok(()) => Self::fill_spec(
                    old(self)@,
                    old(memory).bytes(),
                    this.address,
                    name.spec_bytes(),
                    kind,
                    value,
                ) == Ok::<(Map<int, u8>, Seq<u8>), Error>((final(memory).bytes(), final(self)@)),
                Err(e) => Self::fill_spec(
                    old(self)@,
                    old(memory).bytes(),
                    this.address,
                    name.spec_bytes(),
                    kind,
                    value,
                ) == Err::<(Map<int, u8>, Seq<u8>), Error>(e),
            },
    {
        proof {
            use_type_invariant(&*memory);
        }
        let mut script = new_script();
        push_store(&mut script, shifted(this.address, ITEM_ITEM_TYPE as i64), &kind);
        push_store(&mut script, shifted(this.address, ITEM_VALUE as i64), &value);
        assert(stores_of(script@) == Self::fill_script(this.address, kind, value));
        if let Err(e) = run_stores(memory, self, &this, &script) {
            return Err(e);
        }
        let mut text = self.name();
        if let Err(e) = text.assign(
            memory,
            Pointer::new(shifted(this.address, ITEM_NAME as i64)),
            name,
        ) {
            return Err(e);
        }
        self.update(memory, &this)
    }
}

/// The address of the slab of ingredients of the item at `this`.
pub open spec fn slab_of(this: u64) -> u64 {
    (this + ITEM_INGREDIENTS) as u64
}

/// The address of the name of ingredient `i` of the item at `this`.
pub open spec fn ingredient_at(this: u64, i: int) -> u64 {
    (this + 184 + 88 * i) as u64
}

/// The address of the entry for ingredient `i` in the table of the slab of
/// the item at `this`.
pub open spec fn entry_at(this: u64, i: int) -> u64 {
    (this + 624 + 8 * i) as u64
}

/// The free slots of the slab of an item that has `used` names of
/// ingredients: the slots behind them, in their order.
pub open spec fn slots_left(used: int) -> Seq<int> {
    Seq::new((5 - used) as nat, |i: int| used + i)
}

impl PouchItem {
    /// Where the parts of the slab of ingredients of an item lie: its slots
    /// one after the other behind its header, the table behind them, and
    /// all of it inside the item.
    pub proof fn lemma_slab_place(this: u64, i: int)
        requires
            in_window(this as int, 664),
            0 <= i < 5,
        ensures
            ItemName::layout_size() == 88,
            Ingredients::total_size() == 512,
            wrap(this + ITEM_INGREDIENTS) == slab_of(this),
            in_window(slab_of(this) as int, 512),
            Ingredients::slot_at(slab_of(this), i) == ingredient_at(this, i),
            ingredient_at(this, i) == this + 184 + 88 * i,
            entry_at(this, i) == this + 624 + 8 * i,
            in_window(ingredient_at(this, i) as int, 88),
            in_window(entry_at(this, i) as int, 8),
    {
        assert(5 * (88 + 8) == 480) by (nonlinear_arith);
        assert(Ingredients::total_size() == 512);
        Ingredients::lemma_slot_place(slab_of(this), i, i);
        assert(i * 88 == 88 * i) by (nonlinear_arith);
    }

    /// Taking a slot for the name of one more ingredient, in an item whose
    /// slab of ingredients is well-formed with the first `used` slots in
    /// use, builds an empty name in the next slot and notes the slot in the
    /// table. Of the bytes only the count and the free list of the slab,
    /// that slot and that entry of the table change.
    #[verifier::rlimit(80)]
    pub proof fn lemma_ingredient(slab: Seq<u8>, bytes: Map<int, u8>, this: u64, used: int)
        requires
            in_window(this as int, 664),
            0 <= used < 5,
            Ingredients::is_slab(bytes, slab_of(this), slots_left(used), used),
            covered(bytes, this as int, 664),
            Ingredients::free_of(slab) == Ingredients::chain(slab_of(this), slots_left(used), 0),
            load::<Pointer>(bytes, (this + ITEM_INGREDIENTS + 8) as u64) == Ok::<u64, Error>(
                entry_at(this, 0),
            ),
        ensures
            Self::ingredient_spec(slab, bytes, this) matches Ok((after, item, fresh)) && {
                &&& Ingredients::is_slab(after, slab_of(this), slots_left(used + 1), used + 1)
                &&& Ingredients::free_of(fresh) == Ingredients::chain(
                    slab_of(this),
                    slots_left(used + 1),
                    0,
                )
                &&& Ingredients::ptr_num_of(fresh) == used + 1
                &&& load::<PouchItem>(after, this) == Ok::<Seq<u8>, Error>(item)
                &&& load::<Pointer>(after, entry_at(this, used)) == Ok::<u64, Error>(
                    ingredient_at(this, used),
                )
                &&& holds_text(
                    after,
                    (ingredient_at(this, used) + STRING_BUFFER) as u64,
                    Seq::<u8>::empty(),
                )
                &&& forall|a: int| #[trigger] after.contains_key(a) == bytes.contains_key(a)
                &&& forall|a: int|
                    bytes.contains_key(a) && !(this + 152 <= a < this + 156) && !(this + 168 <= a
                        < this + 176) && !(ingredient_at(this, used) + 8 <= a < ingredient_at(
                        this,
                        used,
                    ) + 88) && !(entry_at(this, used) <= a < entry_at(this, used) + 8)
                        ==> #[trigger] after[a] == bytes[a]
            },
    {
        reveal(PouchItem::ingredient_spec);
        let at = slab_of(this);
        let free = slots_left(used);
        let rest = slots_left(used + 1);
        let slot = ingredient_at(this, used);
        let entry = entry_at(this, used);
        assert(free.drop_first() =~= rest);
        Self::lemma_slab_place(this, used);
        Self::lemma_slab_place(this, 0);
        assert(Ingredients::chain(at, free, 0) == slot);
        Ingredients::lemma_acquire(slab, bytes, at, free, used);
        let (b1, s1, got) = Ingredients::acquire_spec(slab, bytes, at)->Ok_0;
        assert(got == slot);
        assert(covered(b1, this as int, 664)) by {
            assert forall|a: int| this <= a < this + 664 implies b1.contains_key(a) by {
                assert(bytes.contains_key(a));
            }
        }
        Ingredients::lemma_slab_fields(b1, at);
        assert(same_bytes(bytes, b1, at + 8, 8));
        lemma_load_same::<Pointer>(bytes, b1, (at + 8) as u64);
        assert(Ingredients::ptrs_of(s1) == entry_at(this, 0));
        assert(Ingredients::ptr_num_of(s1) == used + 1);
        assert(covered(b1, slot as int, 88));
        ItemName::lemma_ctor(b1, slot);
        let (b2, _) = ItemName::ctor_spec(b1, slot)->Ok_0;
        assert forall|a: int| !(slot + 8 <= a < slot + 88) implies (#[trigger] b2.contains_key(a))
            == b1.contains_key(a) && (b1.contains_key(a) ==> b2[a] == b1[a]) by {
            if slot <= a < slot + 8 {
                assert(same_bytes(b1, b2, slot as int, 8));
            } else {
                assert(same_bytes(b1, b2, a, 1));
            }
        }
        assert forall|a: int| slot + 8 <= a < slot + 88 implies #[trigger] b2.contains_key(a) by {
            assert(covered(b2, slot as int, 88));
        }
        Pointer::<u8>::lemma_layout(slot);
        let data = Pointer::<u8>::encode(slot);
        let b3 = written(b2, entry as int, data);
        lemma_read_after_write::<Pointer>(b2, entry, slot);
        assert(store::<Pointer>(b2, entry, slot) == Ok::<Map<int, u8>, Error>(b3));
        assert(covered(b3, this as int, 664)) by {
            assert forall|a: int| this <= a < this + 664 implies b3.contains_key(a) by {
                assert(b1.contains_key(a));
                assert(b2.contains_key(a));
            }
        }
        assert(covered(b3, at as int, 512));
        // The name in the slot stays as it was built.
        let top = (slot + STRING_BUFFER) as u64;
        lemma_written_same_bytes(b2, entry as int, data, top as int, 1);
        lemma_load_same::<i8>(b2, b3, top);
        // The slab stays well-formed: its header and its free slots stay.
        assert(same_bytes(b1, b2, at as int, 32));
        lemma_written_same_bytes(b2, entry as int, data, at as int, 32);
        lemma_same_bytes_chain(b1, b2, b3, at as int, 32);
        assert forall|k: int| 0 <= k < rest.len() implies same_bytes(
            b1,
            b3,
            Ingredients::slot_at(at, #[trigger] rest[k]) as int,
            8,
        ) by {
            Self::lemma_slab_place(this, rest[k]);
            let other = ingredient_at(this, rest[k]);
            assert(same_bytes(b1, b2, other as int, 8));
            lemma_written_same_bytes(b2, entry as int, data, other as int, 8);
            lemma_same_bytes_chain(b1, b2, b3, other as int, 8);
        }
        Ingredients::lemma_slab_kept(b1, b3, at, rest, used + 1);
    }
}

impl PouchItem {
    /// Entry `i` of the table of the item at `this` holds the address of
    /// the name of ingredient `i`, and that name is empty.
    pub open spec fn ingredient_built(bytes: Map<int, u8>, this: u64, i: int) -> bool {
        &&& load::<Pointer>(bytes, entry_at(this, i)) == Ok::<u64, Error>(ingredient_at(this, i))
        &&& holds_text(bytes, (ingredient_at(this, i) + STRING_BUFFER) as u64, Seq::<u8>::empty())
    }

    /// Taking the slots that are left for the names of ingredients, in an
    /// item whose slab of ingredients is well-formed with the first `used`
    /// slots in use, leaves a slab without a free slot, an empty name in
    /// each of those slots, and each of them noted in the table. Of the
    /// bytes only the count and the free list of the slab, those slots and
    /// those entries of the table change.
    #[verifier::rlimit(80)]
    pub proof fn lemma_ingredients(
        item: Seq<u8>,
        slab: Seq<u8>,
        bytes: Map<int, u8>,
        this: u64,
        used: int,
        rounds: nat,
    )
        requires
            in_window(this as int, 664),
            0 <= used,
            used + rounds == 5,
            Ingredients::is_slab(bytes, slab_of(this), slots_left(used), used),
            covered(bytes, this as int, 664),
            Ingredients::free_of(slab) == Ingredients::chain(slab_of(this), slots_left(used), 0),
            load::<Pointer>(bytes, (this + ITEM_INGREDIENTS + 8) as u64) == Ok::<u64, Error>(
                entry_at(this, 0),
            ),
            load::<PouchItem>(bytes, this) == Ok::<Seq<u8>, Error>(item),
        ensures
            Self::ingredients_spec(item, slab, bytes, this, rounds) matches Ok(
                (after, built, fresh),
            ) && {
                &&& Ingredients::is_slab(after, slab_of(this), Seq::<int>::empty(), 5)
                &&& load::<PouchItem>(after, this) == Ok::<Seq<u8>, Error>(built)
                &&& forall|i: int| used <= i < 5 ==> #[trigger] Self::ingredient_built(after, this, i)
                &&& forall|a: int| #[trigger] after.contains_key(a) == bytes.contains_key(a)
                &&& forall|a: int|
                    bytes.contains_key(a) && !(this + 152 <= a < this + 156) && !(this + 168 <= a
                        < this + 176) && !(ingredient_at(this, used) + 8 <= a < this + 624) && !(
                    entry_at(this, used) <= a < this + 664) ==> #[trigger] after[a] == bytes[a]
            },
        decreases rounds,
    {
        if rounds == 0 {
            assert(slots_left(5) =~= Seq::<int>::empty());
        } else {
            Self::lemma_slab_place(this, used);
            Self::lemma_ingredient(slab, bytes, this, used);
            let (b1, item1, slab1) = Self::ingredient_spec(slab, bytes, this)->Ok_0;
            assert(covered(b1, this as int, 664)) by {
                assert forall|a: int| this <= a < this + 664 implies b1.contains_key(a) by {
                    assert(bytes.contains_key(a));
                }
            }
            assert(same_bytes(bytes, b1, this + 160, 8));
            lemma_load_same::<Pointer>(bytes, b1, (this + 160) as u64);
            Self::lemma_ingredients(item1, slab1, b1, this, used + 1, (rounds - 1) as nat);
            let (after, built, fresh) = Self::ingredients_spec(
                item1,
                slab1,
                b1,
                this,
                (rounds - 1) as nat,
            )->Ok_0;
            assert(ingredient_at(this, used + 1) == ingredient_at(this, used) + 88);
            assert(entry_at(this, used + 1) == entry_at(this, used) + 8);
            assert(Self::ingredient_built(after, this, used)) by {
                let top = (ingredient_at(this, used) + STRING_BUFFER) as u64;
                assert(same_bytes(b1, after, entry_at(this, used) as int, 8));
                lemma_load_same::<Pointer>(b1, after, entry_at(this, used));
                assert(same_bytes(b1, after, top as int, 1));
                lemma_load_same::<i8>(b1, after, top);
            }
            assert forall|i: int| used <= i < 5 implies #[trigger] Self::ingredient_built(
                after,
                this,
                i,
            ) by {
                if i > used {
                    assert(Self::ingredient_built(after, this, i));
                }
            }
        }
    }
}

impl PouchItem {
    /// The first stores of the building of an item where it can lie, in
    /// bytes that are stored, succeed and leave what they store: a cleared
    /// link, no kind, no use, the value zero, not equipped, in the
    /// inventory. They change no other byte.
    pub proof fn lemma_head(image: Seq<u8>, bytes: Map<int, u8>, this: u64)
        requires
            in_window(this as int, 664),
            covered(bytes, this as int, 664),
        ensures
            run::<PouchItem>(bytes, image, this, Self::ctor_head(this)) matches Ok((after, _)) && {
                &&& Self::head_built(after, this)
                &&& same_but(bytes, after, this + 8, 30)
            },
    {
        let script = Self::ctor_head(this);
        ListNode::lemma_layout(link(0, 0));
        PouchItemType::lemma_layout(PouchItemType::Invalid);
        ItemUse::lemma_layout(ItemUse::Invalid);
        i32::lemma_layout(0);
        bool::lemma_layout(false);
        bool::lemma_layout(true);
        assert(stores_in_window(script));
        lemma_run_ok::<PouchItem>(bytes, image, this, script);
        lemma_applied_stored::<ListNode>(bytes, script, 0, (this + 8) as u64, link(0, 0));
        lemma_applied_stored::<PouchItemType>(
            bytes,
            script,
            1,
            (this + 24) as u64,
            PouchItemType::Invalid,
        );
        lemma_applied_stored::<ItemUse>(bytes, script, 2, (this + 28) as u64, ItemUse::Invalid);
        lemma_applied_stored::<i32>(bytes, script, 3, (this + 32) as u64, 0);
        lemma_applied_stored::<bool>(bytes, script, 4, (this + 36) as u64, false);
        lemma_applied_stored::<bool>(bytes, script, 5, (this + 37) as u64, true);
        lemma_applied_frame(bytes, script);
        let after = applied(bytes, script);
        assert forall|a: int| bytes.contains_key(a) && !(this + 8 <= a < this + 38) implies after[a]
            == bytes[a] by {
            assert(stores_apart(script, 0, a, 1));
        }
    }

    /// The head of the item at `this` is as building leaves it.
    pub open spec fn head_built(bytes: Map<int, u8>, this: u64) -> bool {
        &&& covered(bytes, this as int, 664)
        &&& load::<ListNode>(bytes, (this + ITEM_LIST_NODE) as u64) == Ok::<ListNode, Error>(
            link(0, 0),
        )
        &&& load::<PouchItemType>(bytes, (this + ITEM_ITEM_TYPE) as u64) == Ok::<
            PouchItemType,
            Error,
        >(PouchItemType::Invalid)
        &&& load::<ItemUse>(bytes, (this + ITEM_ITEM_USE) as u64) == Ok::<ItemUse, Error>(
            ItemUse::Invalid,
        )
        &&& load::<i32>(bytes, (this + ITEM_VALUE) as u64) == Ok::<i32, Error>(0)
        &&& load::<bool>(bytes, (this + ITEM_EQUIPPED) as u64) == Ok::<bool, Error>(false)
        &&& load::<bool>(bytes, (this + ITEM_IN_INVENTORY) as u64) == Ok::<bool, Error>(true)
    }

    /// The name of the item at `this` is as building leaves it: empty, in
    /// its own buffer of 64 bytes.
    pub open spec fn name_built(bytes: Map<int, u8>, this: u64) -> bool {
        &&& load::<Pointer>(bytes, (this + ITEM_NAME + STRING_TOP) as u64) == Ok::<u64, Error>(
            (this + ITEM_NAME + STRING_BUFFER) as u64,
        )
        &&& load::<i32>(bytes, (this + ITEM_NAME + STRING_BUFFER_SIZE) as u64) == Ok::<i32, Error>(
            64,
        )
        &&& holds_text(bytes, (this + ITEM_NAME + STRING_BUFFER) as u64, Seq::<u8>::empty())
    }

    /// A head that is as building leaves it stays so where its bytes stay.
    pub proof fn lemma_head_kept(before: Map<int, u8>, after: Map<int, u8>, this: u64)
        requires
            in_window(this as int, 664),
            Self::head_built(before, this),
            covered(after, this as int, 664),
            same_bytes(before, after, this as int, 40),
        ensures
            Self::head_built(after, this),
    {
        lemma_same_bytes_part(before, after, this as int, 40, this + 8, 16);
        lemma_same_bytes_part(before, after, this as int, 40, this + 24, 4);
        lemma_same_bytes_part(before, after, this as int, 40, this + 28, 4);
        lemma_same_bytes_part(before, after, this as int, 40, this + 32, 4);
        lemma_same_bytes_part(before, after, this as int, 40, this + 36, 1);
        lemma_same_bytes_part(before, after, this as int, 40, this + 37, 1);
        lemma_load_same::<ListNode>(before, after, (this + 8) as u64);
        lemma_load_same::<PouchItemType>(before, after, (this + 24) as u64);
        lemma_load_same::<ItemUse>(before, after, (this + 28) as u64);
        lemma_load_same::<i32>(before, after, (this + 32) as u64);
        lemma_load_same::<bool>(before, after, (this + 36) as u64);
        lemma_load_same::<bool>(before, after, (this + 37) as u64);
    }

    /// A name that is as building leaves it stays so where its bytes stay.
    pub proof fn lemma_name_kept(before: Map<int, u8>, after: Map<int, u8>, this: u64)
        requires
            in_window(this as int, 664),
            Self::name_built(before, this),
            same_bytes(before, after, this + 40, 88),
        ensures
            Self::name_built(after, this),
    {
        lemma_same_bytes_part(before, after, this + 40, 88, this + 48, 8);
        lemma_same_bytes_part(before, after, this + 40, 88, this + 56, 4);
        lemma_same_bytes_part(before, after, this + 40, 88, this + 60, 1);
        lemma_load_same::<Pointer>(before, after, (this + 48) as u64);
        lemma_load_same::<i32>(before, after, (this + 56) as u64);
        lemma_load_same::<i8>(before, after, (this + 60) as u64);
    }
}

impl PouchItem {
    /// The effect of the item at `this` is as building leaves it: none.
    pub open spec fn effect_built(bytes: Map<int, u8>, this: u64) -> bool {
        &&& load::<u32>(bytes, (this + ITEM_EFFECT_ID) as u64) == Ok::<u32, Error>(NO_EFFECT_BITS)
        &&& load::<u32>(bytes, (this + ITEM_EFFECT_LEVEL) as u64) == Ok::<u32, Error>(0)
    }

    /// The item at `this` is as building leaves it: its head and its name,
    /// no effect, and a slab of ingredients without a free slot, whose
    /// table holds the five names, each of them empty.
    pub open spec fn is_blank(bytes: Map<int, u8>, this: u64) -> bool {
        &&& Self::head_built(bytes, this)
        &&& Self::name_built(bytes, this)
        &&& Self::effect_built(bytes, this)
        &&& Ingredients::is_slab(bytes, slab_of(this), Seq::<int>::empty(), 5)
        &&& forall|i: int| 0 <= i < 5 ==> #[trigger] Self::ingredient_built(bytes, this, i)
    }

    /// Building an item where it can lie, in bytes that are stored, as far
    /// as its data: the head and the name are built, the data is stored,
    /// and the pointer to the item's virtual functions, and every byte
    /// outside the item, stay as they are.
    #[verifier::rlimit(80)]
    pub proof fn lemma_start(image: Seq<u8>, bytes: Map<int, u8>, this: u64)
        requires
            in_window(this as int, 664),
            covered(bytes, this as int, 664),
        ensures
            run::<PouchItem>(bytes, image, this, Self::ctor_head(this)) matches Ok((b1, _))
                && ItemName::ctor_spec(b1, wrap(this + ITEM_NAME)) matches Ok((b2, _))
                && refreshed::<Data, PouchItem>(b2, wrap(this + ITEM_DATA), zeros(20), this) matches Ok(
                (after, item),
            ) && {
                &&& load::<PouchItem>(after, this) == Ok::<Seq<u8>, Error>(item)
                &&& Self::head_built(after, this)
                &&& Self::name_built(after, this)
                &&& same_but(bytes, after, this + 8, 140)
            },
    {
        Self::lemma_slab_place(this, 0);
        Self::lemma_head(image, bytes, this);
        let (b1, _) = run::<PouchItem>(bytes, image, this, Self::ctor_head(this))->Ok_0;
        let name = (this + ITEM_NAME) as u64;
        ItemName::lemma_ctor(b1, name);
        let (b2, _) = ItemName::ctor_spec(b1, name)->Ok_0;
        assert forall|a: int| !(name + 8 <= a < name + 88) implies (#[trigger] b2.contains_key(a))
            == b1.contains_key(a) && (b1.contains_key(a) ==> b2[a] == b1[a]) by {
            if name <= a < name + 8 {
                assert(same_bytes(b1, b2, name as int, 8));
            } else {
                assert(same_bytes(b1, b2, a, 1));
            }
        }
        assert forall|a: int| name + 8 <= a < name + 88 implies #[trigger] b2.contains_key(a) by {
            assert(covered(b2, name as int, 88));
        }
        assert(covered(b2, this as int, 664)) by {
            assert forall|a: int| this <= a < this + 664 implies b2.contains_key(a) by {
                assert(b1.contains_key(a));
            }
        }
        assert(same_bytes(b1, b2, this as int, 40));
        Self::lemma_head_kept(b1, b2, this);
        ItemName::lemma_string_fields(b2, name);
        assert(Self::name_built(b2, this));
        let data = (this + ITEM_DATA) as u64;
        assert(zeros(20).len() == 20);
        let after = written(b2, data as int, zeros(20));
        lemma_written_covered(b2, data as int, zeros(20), this as int, 664);
        lemma_written_same_bytes(b2, data as int, zeros(20), this as int, 40);
        lemma_written_same_bytes(b2, data as int, zeros(20), this + 40, 88);
        Self::lemma_head_kept(b2, after, this);
        Self::lemma_name_kept(b2, after, this);
        assert(store::<Data>(b2, data, zeros(20)) == Ok::<Map<int, u8>, Error>(after));
        assert(load::<PouchItem>(after, this) is Ok);
        assert forall|a: int| #[trigger] after.contains_key(a) == bytes.contains_key(a) by {
            assert(b1.contains_key(a) == bytes.contains_key(a));
            assert(b2.contains_key(a) == b1.contains_key(a));
        }
        assert forall|a: int| bytes.contains_key(a) && !(this + 8 <= a < this + 148) implies #[trigger] after[a]
            == bytes[a] by {
            assert(b1.contains_key(a) && b1[a] == bytes[a]);
            if name <= a < name + 8 {
                assert(same_bytes(b1, b2, name as int, 8));
            } else {
                assert(same_bytes(b1, b2, a, 1));
            }
            assert(b2.contains_key(a) && b2[a] == b1[a]);
            assert(after[a] == b2[a]);
        }
    }

    /// Building an item where it can lie, in bytes that are stored,
    /// succeeds and leaves an item as building leaves it; the pointer to the
    /// item's virtual functions, and every byte outside the item, stay as
    /// they are.
    #[verifier::rlimit(80)]
    pub proof fn lemma_ctor(image: Seq<u8>, bytes: Map<int, u8>, this: u64)
        requires
            in_window(this as int, 664),
            covered(bytes, this as int, 664),
        ensures
            Self::ctor_spec(image, bytes, this) matches Ok((after, built)) && {
                &&& load::<PouchItem>(after, this) == Ok::<Seq<u8>, Error>(built)
                &&& Self::is_blank(after, this)
                &&& same_but(bytes, after, this + 8, 656)
            },
    {
        let at = slab_of(this);
        Self::lemma_slab_place(this, 0);
        Self::lemma_start(image, bytes, this);
        let (b1, _) = run::<PouchItem>(bytes, image, this, Self::ctor_head(this))->Ok_0;
        let (b2, _) = ItemName::ctor_spec(b1, wrap(this + ITEM_NAME))->Ok_0;
        let (b3, s3) = refreshed::<Data, PouchItem>(b2, wrap(this + ITEM_DATA), zeros(20), this)->Ok_0;
        // The slab is built in its place.
        Ingredients::lemma_ctor(Self::ingredients_of(s3), b3, at);
        let (b4, slab) = Ingredients::ctor_spec(Self::ingredients_of(s3), b3, at)->Ok_0;
        let all = Seq::new(5, |i: int| i);
        assert(all =~= slots_left(0));
        Ingredients::lemma_slab_fields(b4, at);
        assert(covered(b4, this as int, 664)) by {
            assert forall|a: int| this <= a < this + 664 implies b4.contains_key(a) by {
                assert(b3.contains_key(a));
            }
        }
        assert(same_bytes(b3, b4, this as int, 152));
        // The effect is stored in the data, before the slab.
        let script = Self::ctor_effect(this);
        u32::lemma_layout(NO_EFFECT_BITS);
        u32::lemma_layout(0);
        assert(stores_in_window(script));
        lemma_run_ok::<PouchItem>(b4, s3, this, script);
        let b5 = applied(b4, script);
        let s5 = load::<PouchItem>(b5, this)->Ok_0;
        lemma_applied_stored::<u32>(b4, script, 0, (this + 140) as u64, NO_EFFECT_BITS);
        lemma_applied_stored::<u32>(b4, script, 1, (this + 144) as u64, 0);
        lemma_applied_frame(b4, script);
        assert forall|a: int| b4.contains_key(a) && !(this + 140 <= a < this + 148) implies b5[a]
            == b4[a] by {
            assert(stores_apart(script, 0, a, 1));
        }
        assert(same_bytes(b4, b5, at as int, 512));
        assert forall|k: int| 0 <= k < all.len() implies same_bytes(
            b4,
            b5,
            Ingredients::slot_at(at, #[trigger] all[k]) as int,
            8,
        ) by {
            Self::lemma_slab_place(this, all[k]);
        }
        lemma_same_bytes_part(b4, b5, at as int, 512, at as int, 32);
        Ingredients::lemma_slab_kept(b4, b5, at, all, 0);
        lemma_same_bytes_part(b4, b5, at as int, 512, at + 8, 8);
        lemma_load_same::<Pointer>(b4, b5, (at + 8) as u64);
        assert(Ingredients::slot_at(at, 5) == entry_at(this, 0)) by {
            assert(5 * 88 == 440) by (nonlinear_arith);
        }
        // The slots are taken and the names built in them.
        Self::lemma_ingredients(s5, slab, b5, this, 0, 5);
        let (b6, s6, _) = Self::ingredients_spec(s5, slab, b5, this, 5)->Ok_0;
        assert(covered(b6, this as int, 664)) by {
            assert forall|a: int| this <= a < this + 664 implies b6.contains_key(a) by {
                assert(b5.contains_key(a));
            }
        }
        assert(same_bytes(b3, b6, this as int, 40));
        assert(same_bytes(b3, b6, this + 40, 88));
        Self::lemma_head_kept(b3, b6, this);
        Self::lemma_name_kept(b3, b6, this);
        assert(same_bytes(b5, b6, this + 140, 4));
        assert(same_bytes(b5, b6, this + 144, 4));
        lemma_load_same::<u32>(b5, b6, (this + 140) as u64);
        lemma_load_same::<u32>(b5, b6, (this + 144) as u64);
        assert(Self::ctor_spec(image, bytes, this) == Ok::<(Map<int, u8>, Seq<u8>), Error>((b6, s6)));
        assert forall|a: int| #[trigger] b6.contains_key(a) == bytes.contains_key(a) by {
            assert(b3.contains_key(a) == bytes.contains_key(a));
            assert(b4.contains_key(a) == b3.contains_key(a));
            assert(b5.contains_key(a) == b4.contains_key(a));
        }
        assert forall|a: int| bytes.contains_key(a) && !(this + 8 <= a < this + 664) implies #[trigger] b6[a]
            == bytes[a] by {
            assert(b3.contains_key(a) && b3[a] == bytes[a]);
            assert(b4.contains_key(a) && b4[a] == b3[a]);
            assert(b5.contains_key(a) && b5[a] == b4[a]);
        }
    }
}

impl PouchItem {
    /// The image of an item that lies in memory as building leaves it
    /// holds a cleared link, no kind, no use, the value zero, and the
    /// flags of an item that is not equipped and is in the inventory.
    pub proof fn lemma_blank_fields(bytes: Map<int, u8>, this: u64)
        requires
            in_window(this as int, 664),
            Self::is_blank(bytes, this),
        ensures
            load::<PouchItem>(bytes, this) matches Ok(image) && {
                &&& Self::list_node_of(image) == link(0, 0)
                &&& Self::item_type_of(image) == PouchItemType::Invalid
                &&& Self::item_use_of(image) == ItemUse::Invalid
                &&& Self::value_of(image) == 0
                &&& !Self::equipped_of(image)
                &&& Self::in_inventory_of(image)
            },
    {
        lemma_field_loaded::<ListNode>(bytes, this, 664, ITEM_LIST_NODE as int);
        lemma_field_loaded::<PouchItemType>(bytes, this, 664, ITEM_ITEM_TYPE as int);
        lemma_field_loaded::<ItemUse>(bytes, this, 664, ITEM_ITEM_USE as int);
        lemma_field_loaded::<i32>(bytes, this, 664, ITEM_VALUE as int);
        lemma_field_loaded::<bool>(bytes, this, 664, ITEM_EQUIPPED as int);
        lemma_field_loaded::<bool>(bytes, this, 664, ITEM_IN_INVENTORY as int);
    }
}

impl PouchItem {
    /// The item at `this` is of the kind `kind` and the value `value`, and
    /// shows in the inventory without being equipped.
    pub open spec fn holds_item(bytes: Map<int, u8>, this: u64, kind: PouchItemType, value: i32) -> bool {
        &&& load::<PouchItemType>(bytes, (this + ITEM_ITEM_TYPE) as u64) == Ok::<
            PouchItemType,
            Error,
        >(kind)
        &&& load::<i32>(bytes, (this + ITEM_VALUE) as u64) == Ok::<i32, Error>(value)
        &&& load::<bool>(bytes, (this + ITEM_EQUIPPED) as u64) == Ok::<bool, Error>(false)
        &&& load::<bool>(bytes, (this + ITEM_IN_INVENTORY) as u64) == Ok::<bool, Error>(true)
    }

    /// Making an item that was built an item of a name, a kind and a value
    /// succeeds and leaves that kind and that value; its name is the part
    /// of the name that it keeps, where that holds no zero byte. No byte
    /// changes but those of the kind, of the value, and of the buffer of
    /// the name.
    #[verifier::rlimit(80)]
    pub proof fn lemma_fill(
        image: Seq<u8>,
        bytes: Map<int, u8>,
        this: u64,
        name: Seq<u8>,
        kind: PouchItemType,
        value: i32,
    )
        requires
            in_window(this as int, 664),
            Self::head_built(bytes, this),
            Self::name_built(bytes, this),
        ensures
            Self::fill_spec(image, bytes, this, name, kind, value) matches Ok((after, fresh)) && {
                &&& load::<PouchItem>(after, this) == Ok::<Seq<u8>, Error>(fresh)
                &&& Self::holds_item(after, this, kind, value)
                &&& (forall|i: int|
                    0 <= i < ItemName::kept_text(name).len() ==> ItemName::kept_text(name)[i] != 0)
                    ==> holds_text(
                    after,
                    (this + ITEM_NAME + STRING_BUFFER) as u64,
                    ItemName::kept_text(name),
                )
                &&& forall|a: int| #[trigger] after.contains_key(a) == bytes.contains_key(a)
                &&& forall|a: int|
                    bytes.contains_key(a) && !(this + 24 <= a < this + 28) && !(this + 32 <= a
                        < this + 36) && !(this + 60 <= a < this + 124) ==> #[trigger] after[a]
                        == bytes[a]
            },
    {
        let script = Self::fill_script(this, kind, value);
        PouchItemType::lemma_layout(kind);
        i32::lemma_layout(value);
        assert(stores_in_window(script));
        lemma_run_ok::<PouchItem>(bytes, image, this, script);
        lemma_applied_stored::<PouchItemType>(bytes, script, 0, (this + 24) as u64, kind);
        lemma_applied_stored::<i32>(bytes, script, 1, (this + 32) as u64, value);
        lemma_applied_frame(bytes, script);
        let b1 = applied(bytes, script);
        let s1 = load::<PouchItem>(b1, this)->Ok_0;
        assert forall|a: int| bytes.contains_key(a) && !(this + 24 <= a < this + 28) && !(this + 32
            <= a < this + 36) implies b1[a] == bytes[a] by {
            assert(stores_apart(script, 0, a, 1));
        }
        let text = (this + ITEM_NAME) as u64;
        assert(same_bytes(bytes, b1, this + 48, 12));
        lemma_same_bytes_part(bytes, b1, this + 48, 12, this + 48, 8);
        lemma_same_bytes_part(bytes, b1, this + 48, 12, this + 56, 4);
        lemma_load_same::<Pointer>(bytes, b1, (this + 48) as u64);
        lemma_load_same::<i32>(bytes, b1, (this + 56) as u64);
        assert(same_bytes(bytes, b1, this + 36, 2));
        lemma_same_bytes_part(bytes, b1, this + 36, 2, this + 36, 1);
        lemma_same_bytes_part(bytes, b1, this + 36, 2, this + 37, 1);
        lemma_load_same::<bool>(bytes, b1, (this + 36) as u64);
        lemma_load_same::<bool>(bytes, b1, (this + 37) as u64);
        lemma_field_loaded::<ItemName>(b1, this, 664, ITEM_NAME as int);
        ItemName::lemma_string_fields(b1, text);
        ItemName::lemma_assign(Self::name_of(s1), b1, text, name);
        let (b2, _) = ItemName::assign_spec(Self::name_of(s1), b1, text, name)->Ok_0;
        let kept = ItemName::kept_text(name);
        assert(covered(b2, this as int, 664)) by {
            assert forall|a: int| this <= a < this + 664 implies b2.contains_key(a) by {
                assert(b1.contains_key(a));
            }
        }
        lemma_same_but_apart(b1, b2, this + 60, (kept.len() + 1) as int, this + 24, 4);
        lemma_same_but_apart(b1, b2, this + 60, (kept.len() + 1) as int, this + 32, 4);
        lemma_same_but_apart(b1, b2, this + 60, (kept.len() + 1) as int, this + 36, 1);
        lemma_same_but_apart(b1, b2, this + 60, (kept.len() + 1) as int, this + 37, 1);
        lemma_load_same::<PouchItemType>(b1, b2, (this + 24) as u64);
        lemma_load_same::<i32>(b1, b2, (this + 32) as u64);
        lemma_load_same::<bool>(b1, b2, (this + 36) as u64);
        lemma_load_same::<bool>(b1, b2, (this + 37) as u64);
        assert forall|a: int| #[trigger] b2.contains_key(a) == bytes.contains_key(a) by {
            assert(b1.contains_key(a) == bytes.contains_key(a));
        }
        assert forall|a: int|
            bytes.contains_key(a) && !(this + 24 <= a < this + 28) && !(this + 32 <= a < this + 36)
                && !(this + 60 <= a < this + 124) implies #[trigger] b2[a] == bytes[a] by {
            assert(b1.contains_key(a) && b1[a] == bytes[a]);
        }
    }
}

} // verus!
