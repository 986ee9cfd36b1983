//! The first item of each category of a sound pouch, and what noting them
//! in the manager does.
use vstd::prelude::*;

use crate::error::Error;
use crate::image::lemma_field_loaded;
use crate::item::{ITEM_ITEM_TYPE, PouchItem};
use crate::list::{
    is_list, lemma_distinct_bounded, lemma_header_parts, lemma_list_distinct, linked, OffsetList,
};
use crate::mem::{covered, lemma_load_same, lemma_same_but_apart, load, Pointer, same_but};
use crate::pickup::lemma_slot;
use crate::pmdm::{no_firsts, PauseMenuDataMgr, PMDM_LIST1, PMDM_LIST_HEADS, RUN_LIMIT};
use crate::pouch::{
    is_pouch, item_at, item_kept, item_or_null, lemma_manager_fields, lemma_pouch_kept,
    lemma_pouch_stored, links_of,
};
use crate::script::{
    applied, lemma_applied_frame, lemma_applied_stored, lemma_run_ok, stores_apart,
    stores_in_window,
};
use crate::traits::Updatable;
use crate::types::{PouchCategory, PouchItemType};

verus! {

/// The kind of the item in the slot of index `slot`.
pub open spec fn kind_at(bytes: Map<int, u8>, this: u64, slot: int) -> PouchItemType {
    load::<PouchItemType>(bytes, (item_at(this, slot) + ITEM_ITEM_TYPE) as u64)->Ok_0
}

/// The number of the category of the item in the slot of index `slot`.
pub open spec fn category_at(bytes: Map<int, u8>, this: u64, slot: int) -> int {
    kind_at(bytes, this, slot).category_spec().raw_spec() as int
}

/// The first item of the category of number `c` among the items in the
/// slots at the positions from `from` on, or null where there is none.
pub open spec fn first_of(bytes: Map<int, u8>, this: u64, slots: Seq<int>, c: int, from: int) -> u64
    decreases slots.len() - from,
{
    if from < 0 || from >= slots.len() {
        0
    } else if category_at(bytes, this, slots[from]) == c {
        item_at(this, slots[from])
    } else {
        first_of(bytes, this, slots, c, from + 1)
    }
}

/// The first items of the categories: those found before, and for each
/// other category the first among the items at the positions from `from`
/// on.
pub open spec fn merged(
    firsts: Seq<u64>,
    bytes: Map<int, u8>,
    this: u64,
    slots: Seq<int>,
    from: int,
) -> Seq<u64> {
    Seq::new(
        7,
        |c: int|
            if firsts[c] != 0 {
                firsts[c]
            } else {
                first_of(bytes, this, slots, c, from)
            },
    )
}

/// The first item of a category is null where no item from `from` on is of
/// the category, and else the item at the first position from `from` on
/// that holds one.
pub proof fn lemma_first_of(bytes: Map<int, u8>, this: u64, slots: Seq<int>, c: int, from: int)
    requires
        is_pouch(bytes, this, slots),
        0 <= from <= slots.len(),
    ensures
        first_of(bytes, this, slots, c, from) == 0 ==> forall|k: int|
            from <= k < slots.len() ==> category_at(bytes, this, #[trigger] slots[k]) != c,
        first_of(bytes, this, slots, c, from) != 0 ==> exists|k: int|
            from <= k < slots.len() && first_of(bytes, this, slots, c, from) == item_at(
                this,
                #[trigger] slots[k],
            ) && category_at(bytes, this, slots[k]) == c && forall|j: int|
                from <= j < k ==> category_at(bytes, this, #[trigger] slots[j]) != c,
    decreases slots.len() - from,
{
    lemma_pouch_stored(bytes, this, slots);
    if from < slots.len() {
        lemma_slot(this, slots[from], slots[from]);
        if category_at(bytes, this, slots[from]) == c {
            assert(first_of(bytes, this, slots, c, from) == item_at(this, slots[from]));
        } else {
            lemma_first_of(bytes, this, slots, c, from + 1);
            let first = first_of(bytes, this, slots, c, from + 1);
            if first != 0 {
                let k = choose|k: int|
                    from + 1 <= k < slots.len() && first == item_at(this, #[trigger] slots[k])
                        && category_at(bytes, this, slots[k]) == c && forall|j: int|
                        from + 1 <= j < k ==> category_at(bytes, this, #[trigger] slots[j]) != c;
                assert forall|j: int| from <= j < k implies category_at(
                    bytes,
                    this,
                    #[trigger] slots[j],
                ) != c by {
                    if j > from {
                    }
                }
            } else {
                assert forall|k: int| from <= k < slots.len() implies category_at(
                    bytes,
                    this,
                    #[trigger] slots[k],
                ) != c by {
                    if k > from {
                    }
                }
            }
        }
    }
}

/// The first item of a category stays the same where the kinds of the
/// items stay the same.
pub proof fn lemma_first_kept(
    before: Map<int, u8>,
    after: Map<int, u8>,
    this: u64,
    slots: Seq<int>,
    c: int,
    from: int,
)
    requires
        forall|k: int|
            0 <= k < slots.len() ==> kind_at(after, this, #[trigger] slots[k]) == kind_at(
                before,
                this,
                slots[k],
            ),
    ensures
        first_of(after, this, slots, c, from) == first_of(before, this, slots, c, from),
    decreases slots.len() - from,
{
    if 0 <= from < slots.len() {
        assert(kind_at(after, this, slots[from]) == kind_at(before, this, slots[from]));
        lemma_first_kept(before, after, this, slots, c, from + 1);
    }
}

/// A sound pouch holds no more items than the manager has slots.
pub proof fn lemma_pouch_bounded(bytes: Map<int, u8>, this: u64, slots: Seq<int>)
    requires
        is_pouch(bytes, this, slots),
    ensures
        slots.len() <= 420,
{
    lemma_pouch_stored(bytes, this, slots);
    let links = links_of(this, slots);
    lemma_list_distinct(bytes, (this + PMDM_LIST1) as u64, links);
    let indices = Seq::new(slots.len(), |k: int| slots[k] as u64);
    assert forall|a: int, b: int| 0 <= a < indices.len() && 0 <= b < indices.len() && a != b implies indices[a]
        != indices[b] by {
        assert(links[a] != links[b]);
    }
    lemma_distinct_bounded(indices, 0, 420);
}

impl PauseMenuDataMgr {
    /// The walk through the list of a sound pouch, from the item at the
    /// position `from` on, finds for each category without a first item
    /// yet the first item of the category from there on.
    pub proof fn lemma_firsts(
        header: OffsetList<PouchItem>,
        bytes: Map<int, u8>,
        this: u64,
        slots: Seq<int>,
        from: int,
        firsts: Seq<u64>,
        left: nat,
    )
        requires
            is_pouch(bytes, this, slots),
            load::<OffsetList<PouchItem>>(bytes, (this + PMDM_LIST1) as u64) == Ok::<
                OffsetList<PouchItem>,
                Error,
            >(header),
            0 <= from <= slots.len(),
            left >= slots.len() - from,
            firsts.len() == 7,
        ensures
            Self::firsts_spec(
                header,
                bytes,
                (this + PMDM_LIST1) as u64,
                item_or_null(this, slots, from),
                firsts,
                left,
            ) == Ok::<Seq<u64>, Error>(merged(firsts, bytes, this, slots, from)),
        decreases slots.len() - from,
    {
        lemma_pouch_stored(bytes, this, slots);
        let list = (this + PMDM_LIST1) as u64;
        let links = links_of(this, slots);
        if from == slots.len() {
            assert(merged(firsts, bytes, this, slots, from) =~= firsts);
        } else {
            let at = item_at(this, slots[from]);
            lemma_slot(this, slots[from], slots[from]);
            lemma_header_parts::<PouchItem>(bytes, list);
            assert(header.offset == 8) by {
                reveal(is_pouch);
            }
            assert(covered(bytes, at + ITEM_ITEM_TYPE, 4));
            let kind = kind_at(bytes, this, slots[from]);
            assert(header.next_spec(bytes, list, at) == Ok::<u64, Error>(
                item_or_null(this, slots, from + 1),
            )) by {
                reveal(is_list);
                assert(linked(bytes, list, links, from));
                assert(links[from] == at + 8);
                if from + 1 < slots.len() {
                    assert(linked(bytes, list, links, from + 1));
                    lemma_slot(this, slots[from + 1], slots[from + 1]);
                    assert(links[from + 1] == item_at(this, slots[from + 1]) + 8);
                }
            }
            let more = Self::noted(firsts, kind, at);
            Self::lemma_firsts(header, bytes, this, slots, from + 1, more, (left - 1) as nat);
            assert(merged(more, bytes, this, slots, from + 1) =~= merged(
                firsts,
                bytes,
                this,
                slots,
                from,
            ));
        }
    }

    /// The walk through the list of a sound pouch finds the first item of
    /// each category.
    pub proof fn lemma_first_items(image: Seq<u8>, bytes: Map<int, u8>, this: u64, slots: Seq<int>)
        requires
            is_pouch(bytes, this, slots),
            load::<PauseMenuDataMgr>(bytes, this) == Ok::<Seq<u8>, Error>(image),
        ensures
            Self::first_items_spec(image, bytes, this) == Ok::<Seq<u64>, Error>(
                Seq::new(7, |c: int| first_of(bytes, this, slots, c, 0)),
            ),
    {
        lemma_pouch_stored(bytes, this, slots);
        lemma_pouch_bounded(bytes, this, slots);
        lemma_manager_fields(bytes, this);
        let list = (this + PMDM_LIST1) as u64;
        let links = links_of(this, slots);
        let header = Self::list1_of(image);
        lemma_header_parts::<PouchItem>(bytes, list);
        assert(header.offset == 8) by {
            reveal(is_pouch);
        }
        header.lemma_nth(bytes, list, links, 0);
        if slots.len() > 0 {
            lemma_slot(this, slots[0], slots[0]);
            assert(links[0] == item_at(this, slots[0]) + 8);
        }
        Self::lemma_firsts(header, bytes, this, slots, 0, no_firsts(), RUN_LIMIT as nat);
        assert(merged(no_firsts(), bytes, this, slots, 0) =~= Seq::new(
            7,
            |c: int| first_of(bytes, this, slots, c, 0),
        ));
    }
}

impl PauseMenuDataMgr {
    /// Noting the first items of the categories of a sound pouch
    /// succeeds: afterwards the manager gives for each category its first
    /// item, or null where it has none; the pouch is sound as before, and
    /// no byte changes but in the heads and the cells of the categories.
    #[verifier::rlimit(80)]
    pub proof fn lemma_heads(image: Seq<u8>, bytes: Map<int, u8>, this: u64, slots: Seq<int>)
        requires
            is_pouch(bytes, this, slots),
            load::<PauseMenuDataMgr>(bytes, this) == Ok::<Seq<u8>, Error>(image),
        ensures
            Self::list_heads_spec(image, bytes, this) matches Ok((after, fresh)) && {
                &&& load::<PauseMenuDataMgr>(after, this) == Ok::<Seq<u8>, Error>(fresh)
                &&& is_pouch(after, this, slots)
                &&& forall|c: int|
                    0 <= c < 7 ==> Self::item_head_spec(
                        fresh,
                        after,
                        PouchCategory::from_raw_spec(c as i32),
                    ) == Ok::<u64, Error>(#[trigger] first_of(after, this, slots, c, 0))
                &&& same_but(bytes, after, this + PMDM_LIST_HEADS, 112)
            },
    {
        lemma_pouch_stored(bytes, this, slots);
        Self::lemma_first_items(image, bytes, this, slots);
        let firsts = Seq::new(7, |c: int| first_of(bytes, this, slots, c, 0));
        let script = Self::heads_script(this, firsts);
        let heads = this + PMDM_LIST_HEADS;
        assert forall|k: int| 0 <= k < 14 implies (#[trigger] script[k]).1.len() == 8 && script[k].0
            == heads + if k % 2 == 0 {
            56 + 8 * (k / 2)
        } else {
            8 * (k / 2)
        } by {
            Pointer::<u8>::lemma_layout(firsts[k / 2]);
            Pointer::<u8>::lemma_layout(0);
            Pointer::<u8>::lemma_layout(Self::head_cell(this, k / 2));
        }
        assert(stores_in_window(script));
        lemma_run_ok::<PauseMenuDataMgr>(bytes, image, this, script);
        let after = applied(bytes, script);
        let fresh = load::<PauseMenuDataMgr>(after, this)->Ok_0;
        assert forall|k: int| 0 <= k < script.len() implies covered(
            bytes,
            (#[trigger] script[k]).0 as int,
            script[k].1.len() as int,
        ) by {}
        lemma_applied_frame(bytes, script);
        assert forall|a: int| bytes.contains_key(a) && !(heads <= a < heads + 112) implies #[trigger] after[a]
            == bytes[a] by {
            assert(stores_apart(script, 0, a, 1));
        }
        assert(same_but(bytes, after, heads, 112));
        // The pouch lies before the heads.
        lemma_same_but_apart(bytes, after, heads, 112, this + PMDM_LIST1, 24);
        assert forall|k: int| 0 <= k < slots.len() implies #[trigger] item_kept(
            bytes,
            after,
            this,
            slots,
            k,
        ) by {
            lemma_slot(this, slots[k], slots[k]);
            let at = item_at(this, slots[k]) as int;
            lemma_same_but_apart(bytes, after, heads, 112, at + 8, 16);
            lemma_same_but_apart(bytes, after, heads, 112, at + 48, 12);
        }
        lemma_pouch_kept(bytes, after, this, slots);
        // The kinds of the items lie before the heads too.
        assert forall|k: int| 0 <= k < slots.len() implies kind_at(after, this, #[trigger] slots[k])
            == kind_at(bytes, this, slots[k]) by {
            lemma_slot(this, slots[k], slots[k]);
            let at = item_at(this, slots[k]) as int;
            lemma_same_but_apart(bytes, after, heads, 112, at + ITEM_ITEM_TYPE, 4);
            lemma_load_same::<PouchItemType>(bytes, after, (at + ITEM_ITEM_TYPE) as u64);
        }
        // Each category's head leads to its first item.
        assert forall|c: int| 0 <= c < 7 implies Self::item_head_spec(
            fresh,
            after,
            PouchCategory::from_raw_spec(c as i32),
        ) == Ok::<u64, Error>(#[trigger] first_of(after, this, slots, c, 0)) by {
            lemma_first_kept(bytes, after, this, slots, c, 0);
            let cell = Self::head_cell(this, c);
            let head = (heads + 8 * c) as u64;
            let first = firsts[c];
            let shown: u64 = if first == 0 {
                0
            } else {
                cell
            };
            Pointer::<u8>::lemma_layout(first);
            Pointer::<u8>::lemma_layout(shown);
            assert(script[2 * c] == (cell, Pointer::<u8>::encode(first)));
            assert(script[2 * c + 1] == (head, Pointer::<u8>::encode(shown)));
            assert(stores_apart(script, 2 * c + 1, cell as int, 8));
            assert(stores_apart(script, 2 * c + 2, head as int, 8));
            lemma_applied_stored::<Pointer>(bytes, script, 2 * c, cell, first);
            lemma_applied_stored::<Pointer>(bytes, script, 2 * c + 1, head, shown);
            lemma_field_loaded::<Pointer>(
                after,
                this,
                PauseMenuDataMgr::layout_size(),
                PMDM_LIST_HEADS + 8 * c,
            );
            assert(PouchCategory::from_raw_spec(c as i32).raw_spec() == c);
        }
    }
}

} // verus!
