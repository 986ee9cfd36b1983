//! The game's intrusive list: links that live inside the elements, at a fixed
//! offset, and close into a ring through a sentinel in the list's header.
use std::marker::PhantomData;
use vstd::bytes::*;
use vstd::prelude::*;
use vstd::slice::slice_subrange;

use crate::error::{Error, seen};
use crate::mem::{
    ASLR_END, ASLR_START, bytes_at, covered, in_window, lemma_bytes_at_split, lemma_load_outside,
    lemma_load_same, lemma_read_after_write, lemma_written_covered, lemma_written_inside,
    lemma_written_outside, load, Memory, Pointer, same_bytes, shifted, store, wrap, written,
};
use crate::script::{
    applied, lemma_applied_outside, lemma_applied_stored, lemma_run_ok, new_script, push_store,
    refreshed, run, run_stores, stores_apart, stores_in_window, stores_of, write_refresh,
};
use crate::traits::Updatable;

verus! {

/// Offset of a link's `prev` field.
pub const NODE_PREV: u64 = 0;

/// Offset of a link's `next` field.
pub const NODE_NEXT: u64 = 8;

/// The link embedded in a list element.
///
/// Both fields hold the address of another link, or of the list's sentinel.
pub struct ListNode {
    pub prev: Pointer,
    pub next: Pointer,
}

impl View for ListNode {
    type V = ListNode;

    open spec fn view(&self) -> ListNode {
        *self
    }
}

impl Clone for ListNode {
    fn clone(&self) -> (r: Self)
        ensures
            r == *self,
    {
        *self
    }
}

impl Copy for ListNode {

}

impl Default for ListNode {
    fn default() -> (node: Self)
        ensures
            node == link(0, 0),
    {
        ListNode { prev: Pointer::null(), next: Pointer::null() }
    }
}

impl Updatable for ListNode {
    open spec fn layout_size() -> usize {
        16
    }

    open spec fn decode(bytes: Seq<u8>) -> ListNode {
        ListNode {
            prev: Pointer {
                address: spec_u64_from_le_bytes(bytes.subrange(0, 8)),
                phantom: PhantomData,
            },
            next: Pointer {
                address: spec_u64_from_le_bytes(bytes.subrange(8, 16)),
                phantom: PhantomData,
            },
        }
    }

    open spec fn encode(value: ListNode) -> Seq<u8> {
        spec_u64_to_le_bytes(value.prev.address) + spec_u64_to_le_bytes(value.next.address)
    }

    open spec fn representable(value: ListNode) -> bool {
        true
    }

    proof fn lemma_layout(value: ListNode) {
        lemma_auto_spec_u64_to_from_le_bytes();
        let image = Self::encode(value);
        assert(image.subrange(0, 8) =~= spec_u64_to_le_bytes(value.prev.address));
        assert(image.subrange(8, 16) =~= spec_u64_to_le_bytes(value.next.address));
    }

    fn size() -> (n: usize) {
        16
    }

    fn from_bytes(bytes: &[u8]) -> (value: Self) {
        let value = ListNode {
            prev: Pointer::new(u64_from_le_bytes(slice_subrange(bytes, 0, 8))),
            next: Pointer::new(u64_from_le_bytes(slice_subrange(bytes, 8, 16))),
        };
        assert(Self::representable(value@));
        assert(value@ == Self::decode(bytes@));
        value
    }

    fn to_bytes(&self) -> (bytes: Vec<u8>) {
        let mut bytes = u64_to_le_bytes(self.prev.address);
        let mut next = u64_to_le_bytes(self.next.address);
        bytes.append(&mut next);
        proof {
            lemma_auto_spec_u64_to_from_le_bytes();
            assert(Self::representable(self@));
            assert(bytes@ == Self::encode(self@));
        }
        bytes
    }
}

/// The link with the given neighbours.
pub open spec fn link(prev: u64, next: u64) -> ListNode {
    ListNode { prev: Pointer::new_spec(prev), next: Pointer::new_spec(next) }
}

/// Storing an address in one field of a link changes that field of that link
/// and no link that lies apart from it.
pub proof fn lemma_link_store(bytes: Map<int, u8>, target: u64, value: u64, m: u64)
    requires
        covered(bytes, m as int, 16),
        in_window(m as int, 16),
        target == m || target == m + 8 || target + 8 <= m || m + 16 <= target,
    ensures
        load::<ListNode>(bytes, m) is Ok,
        load::<ListNode>(written(bytes, target as int, spec_u64_to_le_bytes(value)), m) == Ok::<
            ListNode,
            Error,
        >(
            if target == m {
                link(value, load::<ListNode>(bytes, m)->Ok_0.next.address)
            } else if target == m + 8 {
                link(load::<ListNode>(bytes, m)->Ok_0.prev.address, value)
            } else {
                load::<ListNode>(bytes, m)->Ok_0
            },
        ),
{
    lemma_auto_spec_u64_to_from_le_bytes();
    let data = spec_u64_to_le_bytes(value);
    let after = written(bytes, target as int, data);
    lemma_written_inside(bytes, target as int, data);
    lemma_written_covered(bytes, target as int, data, m as int, 16);
    lemma_bytes_at_split(bytes, m as int, 16, 8);
    lemma_bytes_at_split(after, m as int, 16, 8);
    if target == m {
        lemma_written_outside(bytes, target as int, data, m + 8, 8);
    } else if target == m + 8 {
        lemma_written_outside(bytes, target as int, data, m as int, 8);
    } else {
        lemma_written_outside(bytes, target as int, data, m as int, 16);
    }
}

/// Offset of a list's sentinel link in the list's header.
pub const LIST_START_END: u64 = 0;

/// Offset of a list's element count in the list's header.
pub const LIST_COUNT: u64 = 16;

/// Offset, in a list's header, of the offset at which elements hold their link.
pub const LIST_OFFSET: u64 = 20;

/// The link reached from the link at `node` by following `next` `steps` times.
pub open spec fn walk_next(bytes: Map<int, u8>, node: u64, steps: nat) -> Result<u64, Error>
    decreases steps,
{
    if steps == 0 {
        Ok(node)
    } else {
        match load::<ListNode>(bytes, node) {
            Err(e) => Err(e),
            Ok(link) => walk_next(bytes, link.next.address, (steps - 1) as nat),
        }
    }
}

/// The link reached from the link at `node` by following `prev` `steps` times.
pub open spec fn walk_prev(bytes: Map<int, u8>, node: u64, steps: nat) -> Result<u64, Error>
    decreases steps,
{
    if steps == 0 {
        Ok(node)
    } else {
        match load::<ListNode>(bytes, node) {
            Err(e) => Err(e),
            Ok(link) => walk_prev(bytes, link.prev.address, (steps - 1) as nat),
        }
    }
}

/// A value of 32 bits read without its sign.
pub open spec fn unsigned(value: i32) -> int {
    if value < 0 {
        value + 0x1_0000_0000
    } else {
        value as int
    }
}

/// The header of a list whose elements, of type `T`, hold their link `offset`
/// bytes from their start.
pub struct OffsetList<T> {
    pub start_end: ListNode,
    pub count: i32,
    pub offset: i32,
    pub phantom: PhantomData<T>,
}

impl<T> View for OffsetList<T> {
    type V = OffsetList<T>;

    open spec fn view(&self) -> OffsetList<T> {
        *self
    }
}

impl<T> Clone for OffsetList<T> {
    fn clone(&self) -> (r: Self)
        ensures
            r == *self,
    {
        *self
    }
}

impl<T> Copy for OffsetList<T> {

}

impl<T> Updatable for OffsetList<T> {
    open spec fn layout_size() -> usize {
        24
    }

    open spec fn decode(bytes: Seq<u8>) -> OffsetList<T> {
        OffsetList {
            start_end: ListNode::decode(bytes.subrange(0, 16)),
            count: i32::decode(bytes.subrange(16, 20)),
            offset: i32::decode(bytes.subrange(20, 24)),
            phantom: PhantomData,
        }
    }

    open spec fn encode(value: OffsetList<T>) -> Seq<u8> {
        ListNode::encode(value.start_end) + i32::encode(value.count) + i32::encode(value.offset)
    }

    open spec fn representable(value: OffsetList<T>) -> bool {
        true
    }

    proof fn lemma_layout(value: OffsetList<T>) {
        ListNode::lemma_layout(value.start_end);
        i32::lemma_layout(value.count);
        i32::lemma_layout(value.offset);
        let image = Self::encode(value);
        assert(image.subrange(0, 16) =~= ListNode::encode(value.start_end));
        assert(image.subrange(16, 20) =~= i32::encode(value.count));
        assert(image.subrange(20, 24) =~= i32::encode(value.offset));
    }

    fn size() -> (n: usize) {
        24
    }

    fn from_bytes(bytes: &[u8]) -> (value: Self) {
        let value = OffsetList {
            start_end: ListNode::from_bytes(slice_subrange(bytes, 0, 16)),
            count: i32::from_bytes(slice_subrange(bytes, 16, 20)),
            offset: i32::from_bytes(slice_subrange(bytes, 20, 24)),
            phantom: PhantomData,
        };
        assert(Self::representable(value@));
        assert(value@ == Self::decode(bytes@));
        value
    }

    fn to_bytes(&self) -> (bytes: Vec<u8>) {
        let mut bytes = self.start_end.to_bytes();
        let mut count = self.count.to_bytes();
        let mut offset = self.offset.to_bytes();
        bytes.append(&mut count);
        bytes.append(&mut offset);
        proof {
            assert(Self::representable(self@));
            assert(bytes@ == Self::encode(self@));
            Self::lemma_layout(self@);
        }
        bytes
    }
}

impl<T> OffsetList<T> {
    /// The address of the link of the element at `obj`.
    pub open spec fn node_of(self, obj: u64) -> u64 {
        wrap(obj + self.offset)
    }

    /// The address of the element whose link is at `node`.
    pub open spec fn obj_of(self, node: u64) -> u64 {
        wrap(node - self.offset)
    }

    /// What `next` gives for the element at `obj`.
    pub open spec fn next_spec(self, bytes: Map<int, u8>, this: u64, obj: u64) -> Result<u64, Error> {
        match load::<ListNode>(bytes, self.node_of(obj)) {
            Err(e) => Err(e),
            Ok(link) => if link.next.address == wrap(this + LIST_START_END) {
                Ok(0)
            } else {
                Ok(self.obj_of(link.next.address))
            },
        }
    }

    /// What `prev` gives for the element at `obj`.
    pub open spec fn prev_spec(self, bytes: Map<int, u8>, this: u64, obj: u64) -> Result<u64, Error> {
        match load::<ListNode>(bytes, self.node_of(obj)) {
            Err(e) => Err(e),
            Ok(link) => if link.prev.address == wrap(this + LIST_START_END) {
                Ok(0)
            } else {
                Ok(self.obj_of(link.prev.address))
            },
        }
    }

    /// What `nth` gives for the index `n`.
    pub open spec fn nth_spec(self, bytes: Map<int, u8>, n: i32) -> Result<u64, Error> {
        if unsigned(self.count) <= unsigned(n) {
            Ok(0)
        } else {
            match walk_next(
                bytes,
                self.start_end.next.address,
                if n < 0 {
                    0
                } else {
                    n as nat
                },
            ) {
                Err(e) => Err(e),
                Ok(node) => if node == 0 {
                    Ok(0)
                } else {
                    Ok(self.obj_of(node))
                },
            }
        }
    }

    /// What `erase` gives for the element at `item`: the bytes afterwards and
    /// the header as it then lies at `this`.
    pub open spec fn erase_spec(self, bytes: Map<int, u8>, this: u64, item: u64) -> Result<
        (Map<int, u8>, OffsetList<T>),
        Error,
    > {
        let at = self.node_of(item);
        match load::<ListNode>(bytes, at) {
            Err(e) => Err(e),
            Ok(link) => {
                let first = if link.prev.address != 0 {
                    refreshed::<Pointer, OffsetList<T>>(
                        bytes,
                        wrap(link.prev.address + NODE_NEXT),
                        link.next.address,
                        this,
                    )
                } else {
                    Ok((bytes, self))
                };
                match first {
                    Err(e) => Err(e),
                    Ok((b1, _)) => {
                        let second = if link.next.address != 0 {
                            refreshed::<Pointer, OffsetList<T>>(
                                b1,
                                wrap(link.next.address + NODE_PREV),
                                link.prev.address,
                                this,
                            )
                        } else {
                            first
                        };
                        match second {
                            Err(e) => Err(e),
                            Ok((b2, _)) => match refreshed::<Pointer, OffsetList<T>>(
                                b2,
                                wrap(at + NODE_PREV),
                                0,
                                this,
                            ) {
                                Err(e) => Err(e),
                                Ok((b3, header)) => refreshed::<i32, OffsetList<T>>(
                                    b3,
                                    wrap(this + LIST_COUNT),
                                    if header.count == i32::MIN {
                                        i32::MAX
                                    } else {
                                        (header.count - 1) as i32
                                    },
                                    this,
                                ),
                            },
                        }
                    },
                }
            },
        }
    }

    /// The link of the element at `obj`.
    pub fn obj_to_list_node(&self, obj: Pointer<T>) -> (node: Pointer<ListNode>)
        ensures
            node.address == self.node_of(obj.address),
    {
        Pointer::new(shifted(obj.address, self.offset as i64))
    }

    /// The element whose link is at `node`.
    pub fn list_node_to_obj(&self, node: Pointer<ListNode>) -> (obj: Pointer<T>)
        ensures
            obj.address == self.obj_of(node.address),
    {
        Pointer::new(shifted(node.address, -(self.offset as i64)))
    }

    /// The element whose link is at `node`, or null for the null link.
    pub fn list_node_to_obj_with_null_check(&self, node: Pointer<ListNode>) -> (obj: Pointer<T>)
        ensures
            obj.address == if node.address == 0 {
                0
            } else {
                self.obj_of(node.address)
            },
    {
        if node.is_null() {
            Pointer::null()
        } else {
            self.list_node_to_obj(node)
        }
    }

    /// The element before the one at `obj`, or null where that one is the first.
    pub fn prev(&self, memory: &Memory, this: Pointer<Self>, obj: Pointer<T>) -> (r: Result<
        Pointer<T>,
        Error,
    >)
        ensures
            seen(r) == self.prev_spec(memory.bytes(), this.address, obj.address),
    {
        match self.obj_to_list_node(obj).read(memory) {
            Err(e) => Err(e),
            Ok(link) => {
                if link.prev.address == shifted(this.address, LIST_START_END as i64) {
                    Ok(Pointer::null())
                } else {
                    Ok(self.list_node_to_obj(link.prev.cast()))
                }
            },
        }
    }

    /// The element after the one at `obj`, or null where that one is the last.
    pub fn next(&self, memory: &Memory, this: Pointer<Self>, obj: Pointer<T>) -> (r: Result<
        Pointer<T>,
        Error,
    >)
        ensures
            seen(r) == self.next_spec(memory.bytes(), this.address, obj.address),
    {
        match self.obj_to_list_node(obj).read(memory) {
            Err(e) => Err(e),
            Ok(link) => {
                if link.next.address == shifted(this.address, LIST_START_END as i64) {
                    Ok(Pointer::null())
                } else {
                    Ok(self.list_node_to_obj(link.next.cast()))
                }
            },
        }
    }

    /// The element at index `n`, or null where the list holds no more than
    /// `n` elements.
    pub fn nth(&self, memory: &Memory, n: i32) -> (r: Result<Pointer<T>, Error>)
        ensures
            seen(r) == self.nth_spec(memory.bytes(), n),
    {
        if n < 0 {
            if self.count >= 0 || self.count <= n {
                return Ok(Pointer::null());
            }
        } else if 0 <= self.count && self.count <= n {
            return Ok(Pointer::null());
        }
        let mut node: Pointer<ListNode> = self.start_end.next.cast();
        let mut i: i32 = 0;
        let ghost steps: nat = if n < 0 {
            0
        } else {
            n as nat
        };
        while i < n
            invariant
                0 <= i <= steps,
                steps == if n < 0 {
                    0
                } else {
                    n as nat
                },
                !(unsigned(self.count) <= unsigned(n)),
                walk_next(memory.bytes(), self.start_end.next.address, steps) == walk_next(
                    memory.bytes(),
                    node.address,
                    (steps - i) as nat,
                ),
            decreases n - i,
        {
            match node.read(memory) {
                Err(e) => {
                    return Err(e);
                },
                Ok(link) => {
                    node = link.next.cast();
                },
            }
            i += 1;
        }
        Ok(self.list_node_to_obj_with_null_check(node))
    }

    /// Takes the element at `item` out of the list: its neighbours' links are
    /// made to pass it by, its own `prev` is cleared, and the count goes down
    /// by one. After each store the header is read again from `this`.
    pub fn erase(&mut self, memory: &mut Memory, this: Pointer<Self>, item: Pointer<T>) -> (r:
        Result<(), Error>)
        ensures
            final(memory).wf(),
            match r {
                Ok(()) => old(self).erase_spec(old(memory).bytes(), this.address, item.address)
                    == Ok::<(Map<int, u8>, OffsetList<T>), Error>(
                    (final(memory).bytes(), *final(self)),
                ),
                Err(e) => old(self).erase_spec(old(memory).bytes(), this.address, item.address)
                    == Err::<(Map<int, u8>, OffsetList<T>), Error>(e),
            },
    {
        let node_ptr = self.obj_to_list_node(item);
        let link = match node_ptr.read(memory) {
            Err(e) => {
                return Err(e);
            },
            Ok(link) => link,
        };
        if !link.prev.is_null() {
            let r = write_refresh(
                memory,
                shifted(link.prev.address, NODE_NEXT as i64),
                link.next,
                self,
                &this,
            );
            if let Err(e) = r {
                return Err(e);
            }
        }
        if !link.next.is_null() {
            let r = write_refresh(
                memory,
                shifted(link.next.address, NODE_PREV as i64),
                link.prev,
                self,
                &this,
            );
            if let Err(e) = r {
                return Err(e);
            }
        }
        let cleared: Pointer = Pointer::null();
        let r = write_refresh(memory, shifted(node_ptr.address, NODE_PREV as i64), cleared, self, &this);
        if let Err(e) = r {
            return Err(e);
        }
        let count = self.count.wrapping_sub(1);
        write_refresh(memory, shifted(this.address, LIST_COUNT as i64), count, self, &this)
    }
}

/// The link at position `i` of the ring that the sentinel at `this` closes:
/// a position before the first link, or past the last, is the sentinel's.
pub open spec fn ring(this: u64, nodes: Seq<u64>, i: int) -> u64 {
    if 0 <= i < nodes.len() {
        nodes[i]
    } else {
        this
    }
}

/// The link at position `i` of `nodes` lies inside the valid window, shares
/// no byte with the header at `this`, is stored, and holds its two
/// neighbours in the ring.
pub open spec fn linked(bytes: Map<int, u8>, this: u64, nodes: Seq<u64>, i: int) -> bool {
    &&& in_window(nodes[i] as int, 16)
    &&& nodes[i] + 16 <= this || this + 24 <= nodes[i]
    &&& covered(bytes, nodes[i] as int, 16)
    &&& load::<ListNode>(bytes, nodes[i]) == Ok::<ListNode, Error>(
        link(ring(this, nodes, i - 1), ring(this, nodes, i + 1)),
    )
}

/// The list whose header lies at `this` holds exactly the links at `nodes`, in
/// this order: `next` leads from the sentinel through all of them and back,
/// `prev` leads the other way round, the header counts them, and no two of
/// them share a byte.
#[verifier::opaque]
pub open spec fn is_list(bytes: Map<int, u8>, this: u64, nodes: Seq<u64>) -> bool {
    &&& in_window(this as int, 24)
    &&& nodes.len() <= i32::MAX
    &&& covered(bytes, this as int, 24)
    &&& forall|i: int, j: int|
        0 <= i < j < nodes.len() ==> (#[trigger] nodes[i]) + 16 <= (#[trigger] nodes[j])
            || nodes[j] + 16 <= nodes[i]
    &&& load::<ListNode>(bytes, this) == Ok::<ListNode, Error>(
        link(ring(this, nodes, nodes.len() - 1), ring(this, nodes, 0)),
    )
    &&& load::<i32>(bytes, (this + LIST_COUNT) as u64) == Ok::<i32, Error>(nodes.len() as i32)
    &&& forall|i: int| 0 <= i < nodes.len() ==> #[trigger] linked(bytes, this, nodes, i)
}

/// The bytes after the link at `at`, which lies between those at `p` and
/// `nx`, has been taken out of its ring.
#[verifier::opaque]
pub open spec fn unlinked(bytes: Map<int, u8>, p: u64, nx: u64, at: u64) -> Map<int, u8> {
    written(
        written(
            written(bytes, p + NODE_NEXT, spec_u64_to_le_bytes(nx)),
            nx + NODE_PREV,
            spec_u64_to_le_bytes(p),
        ),
        at + NODE_PREV,
        spec_u64_to_le_bytes(0),
    )
}

/// What a link holds after another link has been taken out of its ring.
proof fn lemma_unlinked_link(bytes: Map<int, u8>, p: u64, nx: u64, at: u64, m: u64)
    requires
        in_window(p as int, 16),
        in_window(nx as int, 16),
        in_window(at as int, 16),
        in_window(m as int, 16),
        covered(bytes, m as int, 16),
        m == p || m + 16 <= p || p + 16 <= m,
        m == nx || m + 16 <= nx || nx + 16 <= m,
        m == at || m + 16 <= at || at + 16 <= m,
        at + 16 <= p || p + 16 <= at,
        at + 16 <= nx || nx + 16 <= at,
    ensures
        load::<ListNode>(bytes, m) is Ok,
        covered(unlinked(bytes, p, nx, at), m as int, 16),
        load::<ListNode>(unlinked(bytes, p, nx, at), m) == Ok::<ListNode, Error>(
            link(
                if m == at {
                    0
                } else if m == nx {
                    p
                } else {
                    load::<ListNode>(bytes, m)->Ok_0.prev.address
                },
                if m == p {
                    nx
                } else {
                    load::<ListNode>(bytes, m)->Ok_0.next.address
                },
            ),
        ),
{
    reveal(unlinked);
    let b1 = written(bytes, p + NODE_NEXT, spec_u64_to_le_bytes(nx));
    let b2 = written(b1, nx + NODE_PREV, spec_u64_to_le_bytes(p));
    lemma_link_store(bytes, (p + NODE_NEXT) as u64, nx, m);
    lemma_written_covered(bytes, p + NODE_NEXT, spec_u64_to_le_bytes(nx), m as int, 16);
    lemma_link_store(b1, nx, p, m);
    lemma_written_covered(b1, nx + NODE_PREV, spec_u64_to_le_bytes(p), m as int, 16);
    lemma_link_store(b2, at, 0, m);
    lemma_written_covered(b2, at + NODE_PREV, spec_u64_to_le_bytes(0), m as int, 16);
}

/// A store to a byte that was stored before changes no byte's being stored.
proof fn lemma_written_same_domain(bytes: Map<int, u8>, address: int, data: Seq<u8>)
    requires
        covered(bytes, address, data.len() as int),
    ensures
        forall|a: int| written(bytes, address, data).contains_key(a) == bytes.contains_key(a),
        forall|a: int|
            bytes.contains_key(a) && !(address <= a < address + data.len()) ==> written(
                bytes,
                address,
                data,
            )[a] == bytes[a],
{
}

/// The header of a list is its sentinel, its count and its link offset, one
/// after the other.
pub proof fn lemma_header_parts<T>(bytes: Map<int, u8>, this: u64)
    requires
        in_window(this as int, 24),
        covered(bytes, this as int, 24),
    ensures
        load::<ListNode>(bytes, this) is Ok,
        load::<i32>(bytes, (this + LIST_COUNT) as u64) is Ok,
        load::<i32>(bytes, (this + LIST_OFFSET) as u64) is Ok,
        load::<OffsetList<T>>(bytes, this) == Ok::<OffsetList<T>, Error>(
            OffsetList {
                start_end: load::<ListNode>(bytes, this)->Ok_0,
                count: load::<i32>(bytes, (this + LIST_COUNT) as u64)->Ok_0,
                offset: load::<i32>(bytes, (this + LIST_OFFSET) as u64)->Ok_0,
                phantom: PhantomData,
            },
        ),
{
    lemma_bytes_at_split(bytes, this as int, 24, 16);
    lemma_bytes_at_split(bytes, this + 16, 8, 4);
    let image = bytes_at(bytes, this as int, 24);
    assert(image.subrange(16, 20) =~= image.subrange(16, 24).subrange(0, 4));
    assert(image.subrange(20, 24) =~= image.subrange(16, 24).subrange(4, 8));
}

/// The bytes after the link at `at` has been taken out of its ring and the
/// count at `this` has become `count`.
#[verifier::opaque]
pub open spec fn erased(bytes: Map<int, u8>, this: u64, p: u64, nx: u64, at: u64, count: i32) -> Map<
    int,
    u8,
> {
    written(unlinked(bytes, p, nx, at), this + LIST_COUNT, i32::encode(count))
}

/// Taking a link out of its ring, and counting it out, touches three link
/// fields and the count, and leaves every other byte as it was.
proof fn lemma_erased_frame(bytes: Map<int, u8>, this: u64, p: u64, nx: u64, at: u64, count: i32)
    requires
        covered(bytes, p + 8, 8),
        covered(bytes, nx as int, 8),
        covered(bytes, at as int, 8),
        covered(bytes, this + 16, 4),
    ensures
        forall|a: int| erased(bytes, this, p, nx, at, count).contains_key(a) == bytes.contains_key(a),
        forall|a: int|
            bytes.contains_key(a) && !(p + 8 <= a < p + 16) && !(nx <= a < nx + 8) && !(at <= a < at
                + 8) && !(this + 16 <= a < this + 20) ==> erased(bytes, this, p, nx, at, count)[a]
                == bytes[a],
{
    reveal(unlinked);
    reveal(erased);
    lemma_auto_spec_u64_to_from_le_bytes();
    i32::lemma_layout(count);
    let d1 = spec_u64_to_le_bytes(nx);
    let d2 = spec_u64_to_le_bytes(p);
    let d3 = spec_u64_to_le_bytes(0);
    let b1 = written(bytes, p + NODE_NEXT, d1);
    let b2 = written(b1, nx + NODE_PREV, d2);
    let b3 = written(b2, at + NODE_PREV, d3);
    lemma_written_covered(bytes, p + NODE_NEXT, d1, nx as int, 8);
    lemma_written_covered(bytes, p + NODE_NEXT, d1, at as int, 8);
    lemma_written_covered(bytes, p + NODE_NEXT, d1, this + 16, 4);
    lemma_written_covered(b1, nx + NODE_PREV, d2, at as int, 8);
    lemma_written_covered(b1, nx + NODE_PREV, d2, this + 16, 4);
    lemma_written_covered(b2, at + NODE_PREV, d3, this + 16, 4);
    lemma_written_same_domain(bytes, p + NODE_NEXT, d1);
    lemma_written_same_domain(b1, nx + NODE_PREV, d2);
    lemma_written_same_domain(b2, at + NODE_PREV, d3);
    lemma_written_same_domain(b3, this + LIST_COUNT, i32::encode(count));
}

/// While a link is taken out of its ring, a value that lies apart from the
/// three link fields stays as it is.
proof fn lemma_unlinked_outside<B: Updatable>(bytes: Map<int, u8>, p: u64, nx: u64, at: u64, other: u64)
    requires
        other + B::layout_size() <= p + 8 || p + 16 <= other,
        other + B::layout_size() <= nx || nx + 8 <= other,
        other + B::layout_size() <= at || at + 8 <= other,
    ensures
        load::<B>(unlinked(bytes, p, nx, at), other) == load::<B>(bytes, other),
{
    reveal(unlinked);
    lemma_auto_spec_u64_to_from_le_bytes();
    let d1 = spec_u64_to_le_bytes(nx);
    let d2 = spec_u64_to_le_bytes(p);
    let d3 = spec_u64_to_le_bytes(0);
    let b1 = written(bytes, p + NODE_NEXT, d1);
    let b2 = written(b1, nx + NODE_PREV, d2);
    lemma_load_outside::<B>(bytes, p + NODE_NEXT, d1, other);
    lemma_load_outside::<B>(b1, nx + NODE_PREV, d2, other);
    lemma_load_outside::<B>(b2, at + NODE_PREV, d3, other);
}

impl<T> OffsetList<T> {
    /// What `erase` gives where every store and every refresh succeeds.
    #[verifier::rlimit(50)]
    proof fn lemma_erase_steps(
        self,
        bytes: Map<int, u8>,
        this: u64,
        p: u64,
        nx: u64,
        at: u64,
        item: u64,
        count: i32,
    )
        requires
            self.node_of(item) == at,
            load::<ListNode>(bytes, at) == Ok::<ListNode, Error>(link(p, nx)),
            in_window(p as int, 16),
            in_window(nx as int, 16),
            in_window(at as int, 16),
            in_window(this as int, 24),
            covered(bytes, this as int, 24),
            load::<i32>(unlinked(bytes, p, nx, at), (this + LIST_COUNT) as u64) == Ok::<i32, Error>(
                count,
            ),
            count > i32::MIN,
        ensures
            load::<OffsetList<T>>(erased(bytes, this, p, nx, at, (count - 1) as i32), this) is Ok,
            self.erase_spec(bytes, this, item) == Ok::<(Map<int, u8>, OffsetList<T>), Error>(
                (
                    erased(bytes, this, p, nx, at, (count - 1) as i32),
                    load::<OffsetList<T>>(
                        erased(bytes, this, p, nx, at, (count - 1) as i32),
                        this,
                    )->Ok_0,
                ),
            ),
    {
        reveal(unlinked);
        reveal(erased);
        lemma_auto_spec_u64_to_from_le_bytes();
        let d1 = spec_u64_to_le_bytes(nx);
        let d2 = spec_u64_to_le_bytes(p);
        let d3 = spec_u64_to_le_bytes(0);
        let c = (count - 1) as i32;
        let d4 = i32::encode(c);
        i32::lemma_layout(c);
        let b1 = written(bytes, p + NODE_NEXT, d1);
        let b2 = written(b1, nx + NODE_PREV, d2);
        let b3 = written(b2, at + NODE_PREV, d3);
        let b4 = written(b3, this + LIST_COUNT, d4);
        lemma_written_covered(bytes, p + NODE_NEXT, d1, this as int, 24);
        lemma_written_covered(b1, nx + NODE_PREV, d2, this as int, 24);
        lemma_written_covered(b2, at + NODE_PREV, d3, this as int, 24);
        lemma_written_covered(b3, this + LIST_COUNT, d4, this as int, 24);
        lemma_header_parts::<T>(b1, this);
        lemma_header_parts::<T>(b2, this);
        lemma_header_parts::<T>(b3, this);
        lemma_header_parts::<T>(b4, this);
        let first = refreshed::<Pointer, OffsetList<T>>(bytes, wrap(p + NODE_NEXT), nx, this);
        assert(first == Ok::<(Map<int, u8>, OffsetList<T>), Error>(
            (b1, load::<OffsetList<T>>(b1, this)->Ok_0),
        ));
        let second = refreshed::<Pointer, OffsetList<T>>(b1, wrap(nx + NODE_PREV), p, this);
        assert(second == Ok::<(Map<int, u8>, OffsetList<T>), Error>(
            (b2, load::<OffsetList<T>>(b2, this)->Ok_0),
        ));
        let third = refreshed::<Pointer, OffsetList<T>>(b2, wrap(at + NODE_PREV), 0, this);
        assert(third == Ok::<(Map<int, u8>, OffsetList<T>), Error>(
            (b3, load::<OffsetList<T>>(b3, this)->Ok_0),
        ));
        assert(load::<OffsetList<T>>(b3, this)->Ok_0.count == count);
        let fourth = refreshed::<i32, OffsetList<T>>(b3, wrap(this + LIST_COUNT), c, this);
        assert(fourth == Ok::<(Map<int, u8>, OffsetList<T>), Error>(
            (b4, load::<OffsetList<T>>(b4, this)->Ok_0),
        ));
    }

    /// Erasing an element of a well-formed list leaves a well-formed list of
    /// the other elements, in their old order, and changes nothing but three
    /// link fields and the count.
    pub proof fn lemma_erase(self, bytes: Map<int, u8>, this: u64, nodes: Seq<u64>, i: int, item: u64)
        requires
            is_list(bytes, this, nodes),
            0 <= i < nodes.len(),
            self.node_of(item) == nodes[i],
        ensures
            self.erase_spec(bytes, this, item) matches Ok((after, header)) && {
                &&& is_list(after, this, nodes.remove(i))
                &&& load::<OffsetList<T>>(after, this) == Ok::<OffsetList<T>, Error>(header)
                &&& header.count == nodes.len() - 1
                &&& Ok::<i32, Error>(header.offset) == load::<i32>(
                    bytes,
                    (this + LIST_OFFSET) as u64,
                )
                &&& forall|a: int| after.contains_key(a) == bytes.contains_key(a)
                &&& forall|a: int|
                    bytes.contains_key(a) && !(ring(this, nodes, i - 1) + 8 <= a < ring(
                        this,
                        nodes,
                        i - 1,
                    ) + 16) && !(ring(this, nodes, i + 1) <= a < ring(this, nodes, i + 1) + 8)
                        && !(nodes[i] <= a < nodes[i] + 8) && !(this + 16 <= a < this + 20)
                        ==> after[a] == bytes[a]
            },
    {
        reveal(is_list);
        let n = nodes.len() as int;
        let at = nodes[i];
        let p = ring(this, nodes, i - 1);
        let nx = ring(this, nodes, i + 1);
        let count_at = (this + LIST_COUNT) as u64;
        let offset_at = (this + LIST_OFFSET) as u64;
        let c = (n - 1) as i32;
        let b4 = erased(bytes, this, p, nx, at, c);
        lemma_ring_parts(bytes, this, nodes, i);
        lemma_unlinked_outside::<i32>(bytes, p, nx, at, count_at);
        self.lemma_erase_steps(bytes, this, p, nx, at, item, n as i32);
        lemma_erased_frame(bytes, this, p, nx, at, c);
        lemma_erased_ring(bytes, this, nodes, i);
        lemma_erased_header(bytes, this, p, nx, at, c);
        lemma_header_parts::<T>(b4, this);
    }
}

/// The neighbours of a link of a well-formed list are links of it, or its
/// sentinel, and are stored.
proof fn lemma_ring_parts(bytes: Map<int, u8>, this: u64, nodes: Seq<u64>, i: int)
    requires
        is_list(bytes, this, nodes),
        0 <= i < nodes.len(),
    ensures
        in_window(ring(this, nodes, i - 1) as int, 16),
        in_window(ring(this, nodes, i + 1) as int, 16),
        in_window(nodes[i] as int, 16),
        this + 24 <= ring(this, nodes, i - 1) + 8 || ring(this, nodes, i - 1) + 16 <= this + 16,
        this + 24 <= ring(this, nodes, i + 1) || ring(this, nodes, i + 1) + 8 <= this + 16,
        this + 24 <= nodes[i] || nodes[i] + 8 <= this + 16,
        i == 0 || ring(this, nodes, i - 1) + 16 <= this || this + 24 <= ring(this, nodes, i - 1),
        i + 1 == nodes.len() || ring(this, nodes, i + 1) + 16 <= this || this + 24 <= ring(
            this,
            nodes,
            i + 1,
        ),
        nodes[i] + 16 <= this || this + 24 <= nodes[i],
        nodes[i] + 16 <= ring(this, nodes, i - 1) || ring(this, nodes, i - 1) + 16 <= nodes[i],
        nodes[i] + 16 <= ring(this, nodes, i + 1) || ring(this, nodes, i + 1) + 16 <= nodes[i],
        covered(bytes, ring(this, nodes, i - 1) + 8, 8),
        covered(bytes, ring(this, nodes, i + 1) as int, 8),
        covered(bytes, nodes[i] as int, 8),
        covered(bytes, this + 16, 4),
        covered(bytes, this as int, 16),
        load::<ListNode>(bytes, nodes[i]) == Ok::<ListNode, Error>(
            link(ring(this, nodes, i - 1), ring(this, nodes, i + 1)),
        ),
{
    reveal(is_list);
    let p = ring(this, nodes, i - 1);
    let nx = ring(this, nodes, i + 1);
    lemma_bytes_at_split(bytes, this as int, 24, 16);
    lemma_bytes_at_split(bytes, this + 16, 8, 4);
    assert(linked(bytes, this, nodes, i));
    if i > 0 {
        assert(linked(bytes, this, nodes, i - 1));
    }
    if i + 1 < nodes.len() {
        assert(linked(bytes, this, nodes, i + 1));
    }
    assert(covered(bytes, p as int, 16));
    assert(covered(bytes, nx as int, 16));
    lemma_bytes_at_split(bytes, p as int, 16, 8);
    lemma_bytes_at_split(bytes, nx as int, 16, 8);
    lemma_bytes_at_split(bytes, nodes[i] as int, 16, 8);
}

/// Counting a link out changes the count of the list and neither its link
/// offset nor any link that lies apart from its header.
proof fn lemma_erased_header(bytes: Map<int, u8>, this: u64, p: u64, nx: u64, at: u64, count: i32)
    requires
        in_window(this as int, 24),
        covered(bytes, this as int, 24),
        this + 24 <= p + 8 || p + 16 <= this + 16,
        this + 24 <= nx || nx + 8 <= this + 16,
        this + 24 <= at || at + 8 <= this + 16,
    ensures
        covered(erased(bytes, this, p, nx, at, count), this as int, 24),
        load::<i32>(erased(bytes, this, p, nx, at, count), (this + LIST_COUNT) as u64) == Ok::<
            i32,
            Error,
        >(count),
        load::<i32>(erased(bytes, this, p, nx, at, count), (this + LIST_OFFSET) as u64) == load::<
            i32,
        >(bytes, (this + LIST_OFFSET) as u64),
        forall|m: u64|
            m + 16 <= this + 16 || this + 20 <= m ==> #[trigger] load::<ListNode>(
                erased(bytes, this, p, nx, at, count),
                m,
            ) == load::<ListNode>(unlinked(bytes, p, nx, at), m),
{
    reveal(erased);
    let b3 = unlinked(bytes, p, nx, at);
    let count_at = (this + LIST_COUNT) as u64;
    let offset_at = (this + LIST_OFFSET) as u64;
    let data = i32::encode(count);
    i32::lemma_layout(count);
    lemma_unlinked_outside::<i32>(bytes, p, nx, at, offset_at);
    lemma_read_after_write::<i32>(b3, count_at, count);
    lemma_load_outside::<i32>(b3, count_at as int, data, offset_at);
    assert(covered(b3, this as int, 24)) by {
        reveal(unlinked);
        lemma_auto_spec_u64_to_from_le_bytes();
        let d1 = spec_u64_to_le_bytes(nx);
        let d2 = spec_u64_to_le_bytes(p);
        let d3 = spec_u64_to_le_bytes(0);
        let b1 = written(bytes, p + NODE_NEXT, d1);
        let b2 = written(b1, nx + NODE_PREV, d2);
        lemma_written_covered(bytes, p + NODE_NEXT, d1, this as int, 24);
        lemma_written_covered(b1, nx + NODE_PREV, d2, this as int, 24);
        lemma_written_covered(b2, at + NODE_PREV, d3, this as int, 24);
    }
    lemma_written_covered(b3, count_at as int, data, this as int, 24);
    assert forall|m: u64| m + 16 <= this + 16 || this + 20 <= m implies #[trigger] load::<ListNode>(
        erased(bytes, this, p, nx, at, count),
        m,
    ) == load::<ListNode>(b3, m) by {
        lemma_load_outside::<ListNode>(b3, count_at as int, data, m);
    }
}

/// The ring without the link at position `i` is the old ring with that
/// position left out.
proof fn lemma_ring_remove(this: u64, nodes: Seq<u64>, i: int, j: int)
    requires
        0 <= i < nodes.len(),
    ensures
        ring(this, nodes.remove(i), j) == ring(
            this,
            nodes,
            if j < i {
                j
            } else {
                j + 1
            },
        ),
{
}

/// After a link has been taken out of a well-formed list and counted out,
/// the other links form a well-formed list.
#[verifier::rlimit(50)]
proof fn lemma_erased_ring(bytes: Map<int, u8>, this: u64, nodes: Seq<u64>, i: int)
    requires
        is_list(bytes, this, nodes),
        0 <= i < nodes.len(),
    ensures
        is_list(
            erased(
                bytes,
                this,
                ring(this, nodes, i - 1),
                ring(this, nodes, i + 1),
                nodes[i],
                (nodes.len() - 1) as i32,
            ),
            this,
            nodes.remove(i),
        ),
{
    reveal(is_list);
    let at = nodes[i];
    let p = ring(this, nodes, i - 1);
    let nx = ring(this, nodes, i + 1);
    let rest = nodes.remove(i);
    let c = (nodes.len() - 1) as i32;
    let b3 = unlinked(bytes, p, nx, at);
    let b4 = erased(bytes, this, p, nx, at, c);
    lemma_ring_parts(bytes, this, nodes, i);
    lemma_erased_header(bytes, this, p, nx, at, c);
    lemma_erased_frame(bytes, this, p, nx, at, c);
    lemma_unlinked_link(bytes, p, nx, at, this);
    assert(load::<ListNode>(b4, this) == load::<ListNode>(b3, this));
    lemma_ring_remove(this, nodes, i, rest.len() - 1);
    lemma_ring_remove(this, nodes, i, 0);
    assert(load::<ListNode>(b4, this) == Ok::<ListNode, Error>(
        link(ring(this, rest, rest.len() - 1), ring(this, rest, 0)),
    ));
    assert forall|j: int, k: int| 0 <= j < k < rest.len() implies (#[trigger] rest[j]) + 16 <= (
    #[trigger] rest[k]) || rest[k] + 16 <= rest[j] by {
        let j0 = if j < i {
            j
        } else {
            j + 1
        };
        let k0 = if k < i {
            k
        } else {
            k + 1
        };
        assert(rest[j] == nodes[j0] && rest[k] == nodes[k0]);
    }
    assert forall|j: int| 0 <= j < rest.len() implies #[trigger] linked(b4, this, rest, j) by {
        let k = if j < i {
            j
        } else {
            j + 1
        };
        assert(rest[j] == nodes[k]);
        assert(linked(bytes, this, nodes, k));
        assert(nodes[k] == at || nodes[k] + 16 <= at || at + 16 <= nodes[k]);
        assert(nodes[k] == p || nodes[k] + 16 <= p || p + 16 <= nodes[k]) by {
            if i >= 1 {
                assert(p == nodes[i - 1]);
            }
        }
        assert(nodes[k] == nx || nodes[k] + 16 <= nx || nx + 16 <= nodes[k]) by {
            if i + 1 < nodes.len() {
                assert(nx == nodes[i + 1]);
            }
        }
        lemma_unlinked_link(bytes, p, nx, at, nodes[k]);
        assert(load::<ListNode>(b4, nodes[k]) == load::<ListNode>(b3, nodes[k]));
        lemma_ring_remove(this, nodes, i, j - 1);
        lemma_ring_remove(this, nodes, i, j + 1);
        assert(load::<ListNode>(b4, nodes[k]) == Ok::<ListNode, Error>(
            link(ring(this, rest, j - 1), ring(this, rest, j + 1)),
        ));
        assert forall|a: int| nodes[k] <= a < nodes[k] + 16 implies b4.contains_key(a) by {
            assert(bytes.contains_key(a));
        }
    }
}

/// An element's address is found again from the address of its link.
pub proof fn lemma_node_of_obj(offset: i32, node: u64)
    ensures
        wrap(wrap(node - offset) + offset) == node,
        wrap(wrap(node + offset) - offset) == node,
{
}

impl<T> OffsetList<T> {
    /// The element reached from the element at `obj` by `steps` calls of `next`.
    pub open spec fn advance(self, bytes: Map<int, u8>, this: u64, obj: u64, steps: nat) -> Result<
        u64,
        Error,
    >
        decreases steps,
    {
        if steps == 0 {
            Ok(obj)
        } else {
            match self.next_spec(bytes, this, obj) {
                Err(e) => Err(e),
                Ok(after) => self.advance(bytes, this, after, (steps - 1) as nat),
            }
        }
    }

    /// The element reached from the element at `obj` by `steps` calls of `prev`.
    pub open spec fn retreat(self, bytes: Map<int, u8>, this: u64, obj: u64, steps: nat) -> Result<
        u64,
        Error,
    >
        decreases steps,
    {
        if steps == 0 {
            Ok(obj)
        } else {
            match self.prev_spec(bytes, this, obj) {
                Err(e) => Err(e),
                Ok(before) => self.retreat(bytes, this, before, (steps - 1) as nat),
            }
        }
    }

    /// In a well-formed list, `next` leads from each element to the one
    /// after it, and from the last to null.
    pub proof fn lemma_advance(self, bytes: Map<int, u8>, this: u64, nodes: Seq<u64>, j: int, steps: nat)
        requires
            is_list(bytes, this, nodes),
            0 <= j < nodes.len(),
            j + steps <= nodes.len(),
        ensures
            self.advance(bytes, this, self.obj_of(nodes[j]), steps) == Ok::<u64, Error>(
                if j + steps < nodes.len() {
                    self.obj_of(nodes[j + steps])
                } else {
                    0
                },
            ),
        decreases steps,
    {
        reveal(is_list);
        if steps > 0 {
            assert(linked(bytes, this, nodes, j));
            lemma_node_of_obj(self.offset, nodes[j]);
            if j + 1 < nodes.len() {
                assert(linked(bytes, this, nodes, j + 1));
                self.lemma_advance(bytes, this, nodes, j + 1, (steps - 1) as nat);
                assert(self.next_spec(bytes, this, self.obj_of(nodes[j])) == Ok::<u64, Error>(
                    self.obj_of(nodes[j + 1]),
                ));
            } else {
                assert(self.next_spec(bytes, this, self.obj_of(nodes[j])) == Ok::<u64, Error>(0));
                assert(self.advance(bytes, this, 0, 0) == Ok::<u64, Error>(0));
            }
        }
    }

    /// In a well-formed list, `prev` leads from each element to the one
    /// before it, and from the first to null.
    pub proof fn lemma_retreat(self, bytes: Map<int, u8>, this: u64, nodes: Seq<u64>, j: int, steps: nat)
        requires
            is_list(bytes, this, nodes),
            0 <= j < nodes.len(),
            steps <= j + 1,
        ensures
            self.retreat(bytes, this, self.obj_of(nodes[j]), steps) == Ok::<u64, Error>(
                if steps <= j {
                    self.obj_of(nodes[j - steps])
                } else {
                    0
                },
            ),
        decreases steps,
    {
        reveal(is_list);
        if steps > 0 {
            assert(linked(bytes, this, nodes, j));
            lemma_node_of_obj(self.offset, nodes[j]);
            if j > 0 {
                assert(linked(bytes, this, nodes, j - 1));
                self.lemma_retreat(bytes, this, nodes, j - 1, (steps - 1) as nat);
                assert(self.prev_spec(bytes, this, self.obj_of(nodes[j])) == Ok::<u64, Error>(
                    self.obj_of(nodes[j - 1]),
                ));
            } else {
                assert(self.prev_spec(bytes, this, self.obj_of(nodes[j])) == Ok::<u64, Error>(0));
                assert(self.retreat(bytes, this, 0, 0) == Ok::<u64, Error>(0));
            }
        }
    }

    /// Walking `next` from the first element of a well-formed list exactly
    /// as many times as the list counts elements reaches null, and not
    /// before; so does walking `prev` from the last element.
    pub proof fn lemma_walk(self, bytes: Map<int, u8>, this: u64, nodes: Seq<u64>)
        requires
            is_list(bytes, this, nodes),
            nodes.len() > 0,
        ensures
            load::<i32>(bytes, (this + LIST_COUNT) as u64) == Ok::<i32, Error>(nodes.len() as i32),
            self.advance(bytes, this, self.obj_of(nodes[0]), nodes.len()) == Ok::<u64, Error>(0),
            self.retreat(bytes, this, self.obj_of(nodes[nodes.len() - 1]), nodes.len()) == Ok::<
                u64,
                Error,
            >(0),
            forall|k: int|
                0 <= k < nodes.len() ==> #[trigger] self.advance(
                    bytes,
                    this,
                    self.obj_of(nodes[0]),
                    k as nat,
                ) == Ok::<u64, Error>(self.obj_of(nodes[k])),
            forall|k: int|
                0 <= k < nodes.len() ==> #[trigger] self.retreat(
                    bytes,
                    this,
                    self.obj_of(nodes[nodes.len() - 1]),
                    k as nat,
                ) == Ok::<u64, Error>(self.obj_of(nodes[nodes.len() - 1 - k])),
    {
        reveal(is_list);
        self.lemma_advance(bytes, this, nodes, 0, nodes.len());
        self.lemma_retreat(bytes, this, nodes, nodes.len() - 1, nodes.len());
        assert forall|k: int| 0 <= k < nodes.len() implies #[trigger] self.advance(
            bytes,
            this,
            self.obj_of(nodes[0]),
            k as nat,
        ) == Ok::<u64, Error>(self.obj_of(nodes[k])) by {
            self.lemma_advance(bytes, this, nodes, 0, k as nat);
        }
        assert forall|k: int| 0 <= k < nodes.len() implies #[trigger] self.retreat(
            bytes,
            this,
            self.obj_of(nodes[nodes.len() - 1]),
            k as nat,
        ) == Ok::<u64, Error>(self.obj_of(nodes[nodes.len() - 1 - k])) by {
            self.lemma_retreat(bytes, this, nodes, nodes.len() - 1, k as nat);
        }
    }

    /// In a well-formed list, following `next` from the link at position `j`
    /// leads along the ring.
    pub proof fn lemma_walk_next(bytes: Map<int, u8>, this: u64, nodes: Seq<u64>, j: int, steps: nat)
        requires
            is_list(bytes, this, nodes),
            0 <= j,
            j + steps <= nodes.len(),
        ensures
            walk_next(bytes, ring(this, nodes, j), steps) == Ok::<u64, Error>(
                ring(this, nodes, j + steps),
            ),
        decreases steps,
    {
        reveal(is_list);
        if steps > 0 {
            assert(linked(bytes, this, nodes, j));
            Self::lemma_walk_next(bytes, this, nodes, j + 1, (steps - 1) as nat);
        }
    }

    /// For a well-formed list whose header `self` is, `nth` gives the
    /// element at the index, and null from the count on.
    pub proof fn lemma_nth(self, bytes: Map<int, u8>, this: u64, nodes: Seq<u64>, n: i32)
        requires
            is_list(bytes, this, nodes),
            load::<OffsetList<T>>(bytes, this) == Ok::<OffsetList<T>, Error>(self),
        ensures
            self.nth_spec(bytes, n) == Ok::<u64, Error>(
                if 0 <= n < nodes.len() {
                    self.obj_of(nodes[n as int])
                } else {
                    0
                },
            ),
    {
        reveal(is_list);
        lemma_header_parts::<T>(bytes, this);
        if 0 <= n < nodes.len() {
            assert(linked(bytes, this, nodes, n as int));
            Self::lemma_walk_next(bytes, this, nodes, 0, n as nat);
        }
    }
}

/// Addresses that differ from one another and all lie in one range are no
/// more than the range is long.
pub proof fn lemma_distinct_bounded(s: Seq<u64>, lo: int, hi: int)
    requires
        s.no_duplicates(),
        forall|i: int| 0 <= i < s.len() ==> lo <= #[trigger] s[i] < hi,
    ensures
        s.len() <= if hi > lo {
            hi - lo
        } else {
            0
        },
    decreases hi - lo,
{
    if s.len() > 0 {
        if hi <= lo {
            assert(lo <= s[0] < hi);
        } else {
            let top = (hi - 1) as u64;
            if exists|k: int| 0 <= k < s.len() && s[k] == top {
                let k = choose|k: int| 0 <= k < s.len() && s[k] == top;
                let rest = s.remove(k);
                assert forall|i: int| 0 <= i < rest.len() implies lo <= #[trigger] rest[i] < hi
                    - 1 by {
                    let j = if i < k {
                        i
                    } else {
                        i + 1
                    };
                    assert(rest[i] == s[j]);
                    assert(s[j] != s[k]);
                }
                assert(rest.no_duplicates()) by {
                    assert forall|i: int, j: int|
                        0 <= i < rest.len() && 0 <= j < rest.len() && i != j implies rest[i]
                        != rest[j] by {
                        let i0 = if i < k {
                            i
                        } else {
                            i + 1
                        };
                        let j0 = if j < k {
                            j
                        } else {
                            j + 1
                        };
                        assert(rest[i] == s[i0] && rest[j] == s[j0]);
                    }
                }
                lemma_distinct_bounded(rest, lo, hi - 1);
            } else {
                assert forall|i: int| 0 <= i < s.len() implies lo <= #[trigger] s[i] < hi - 1 by {
                    assert(s[i] != top);
                }
                lemma_distinct_bounded(s, lo, hi - 1);
            }
        }
    }
}

/// The links at `visited` differ from one another and lie in the valid window.
pub open spec fn distinct_in_window(visited: Seq<u64>) -> bool {
    &&& visited.no_duplicates()
    &&& forall|i: int| 0 <= i < visited.len() ==> ASLR_START <= #[trigger] visited[i] < ASLR_END
}

/// What a traversal gives that has come to the link at `node` through the
/// links at `visited`: it ends well at the sentinel, fails at a link that
/// it has seen before, and fails at a link that cannot be read.
pub open spec fn traverse_from(bytes: Map<int, u8>, sentinel: u64, node: u64, visited: Seq<u64>) -> Result<
    (),
    Error,
>
    decreases ASLR_END - ASLR_START - visited.len(),
    when distinct_in_window(visited)
{
    if node == sentinel {
        Ok(())
    } else if visited.contains(node) {
        Err(Error::CorruptList { node })
    } else {
        match load::<ListNode>(bytes, node) {
            Err(e) => Err(e),
            Ok(link) => {
                proof {
                    lemma_visit(visited, node);
                }
                traverse_from(bytes, sentinel, link.next.address, visited.push(node))
            },
        }
    }
}

/// One more link in the window, not seen before, can still be visited.
pub proof fn lemma_visit(visited: Seq<u64>, node: u64)
    requires
        distinct_in_window(visited),
        !visited.contains(node),
        ASLR_START <= node < ASLR_END,
    ensures
        distinct_in_window(visited.push(node)),
        visited.len() < ASLR_END - ASLR_START,
{
    let more = visited.push(node);
    assert forall|i: int, j: int| 0 <= i < more.len() && 0 <= j < more.len() && i != j implies more[i]
        != more[j] by {
        if i < visited.len() {
            assert(visited.contains(visited[i]));
        }
        if j < visited.len() {
            assert(visited.contains(visited[j]));
        }
    }
    lemma_distinct_bounded(more, ASLR_START as int, ASLR_END as int);
}

/// Whether `node` is among `visited`.
pub fn seen_before(visited: &Vec<u64>, node: u64) -> (b: bool)
    ensures
        b == visited@.contains(node),
{
    let mut i: usize = 0;
    while i < visited.len()
        invariant
            0 <= i <= visited.len(),
            forall|j: int| 0 <= j < i ==> visited@[j] != node,
        decreases visited.len() - i,
    {
        if visited[i] == node {
            return true;
        }
        i += 1;
    }
    false
}

impl<T> OffsetList<T> {
    /// What a full traversal of the list gives whose header `self` is.
    pub open spec fn traverse_spec(self, bytes: Map<int, u8>, this: u64) -> Result<(), Error> {
        if self.count == 0 {
            Ok(())
        } else {
            traverse_from(
                bytes,
                wrap(this + LIST_START_END),
                self.start_end.next.address,
                Seq::<u64>::empty(),
            )
        }
    }

    /// Follows `next` from the first link until the sentinel is reached.
    ///
    /// Fails with [`Error::CorruptList`] at the first link that is reached a
    /// second time, and with the failure of the read at a link that cannot
    /// be read. A list that counts no element is not walked.
    pub fn traverse(&self, memory: &Memory, this: Pointer<Self>) -> (r: Result<(), Error>)
        ensures
            r == self.traverse_spec(memory.bytes(), this.address),
    {
        if self.count == 0 {
            return Ok(());
        }
        let sentinel = shifted(this.address, LIST_START_END as i64);
        let mut node = self.start_end.next.address;
        let mut visited: Vec<u64> = Vec::new();
        while node != sentinel
            invariant
                distinct_in_window(visited@),
                traverse_from(memory.bytes(), sentinel, node, visited@) == self.traverse_spec(
                    memory.bytes(),
                    this.address,
                ),
            decreases ASLR_END - ASLR_START - visited.len(),
        {
            if seen_before(&visited, node) {
                return Err(Error::CorruptList { node });
            }
            match memory.read::<ListNode>(node) {
                Err(e) => {
                    return Err(e);
                },
                Ok(link) => {
                    proof {
                        lemma_visit(visited@, node);
                    }
                    visited.push(node);
                    node = link.next.address;
                },
            }
        }
        Ok(())
    }

    /// The traversal of a well-formed list ends well.
    pub proof fn lemma_traverse(self, bytes: Map<int, u8>, this: u64, nodes: Seq<u64>)
        requires
            is_list(bytes, this, nodes),
            load::<OffsetList<T>>(bytes, this) == Ok::<OffsetList<T>, Error>(self),
        ensures
            self.traverse_spec(bytes, this) == Ok::<(), Error>(()),
    {
        reveal(is_list);
        lemma_header_parts::<T>(bytes, this);
        lemma_traverse_from(bytes, this, nodes, 0);
        assert(nodes.subrange(0, 0) =~= Seq::<u64>::empty());
    }
}

/// In a well-formed list, a traversal that has come to position `j` through
/// the links before it ends well.
proof fn lemma_traverse_from(bytes: Map<int, u8>, this: u64, nodes: Seq<u64>, j: int)
    requires
        is_list(bytes, this, nodes),
        0 <= j <= nodes.len(),
    ensures
        distinct_in_window(nodes.subrange(0, j)),
        traverse_from(bytes, this, ring(this, nodes, j), nodes.subrange(0, j)) == Ok::<(), Error>(()),
    decreases nodes.len() - j,
{
    reveal(is_list);
    let visited = nodes.subrange(0, j);
    assert forall|i: int| 0 <= i < visited.len() implies ASLR_START <= #[trigger] visited[i]
        < ASLR_END by {
        assert(linked(bytes, this, nodes, i));
    }
    assert forall|a: int, b: int| 0 <= a < visited.len() && 0 <= b < visited.len() && a != b implies visited[a]
        != visited[b] by {
        assert(visited[a] == nodes[a] && visited[b] == nodes[b]);
    }
    if j < nodes.len() {
        assert(linked(bytes, this, nodes, j));
        assert(!visited.contains(nodes[j])) by {
            if visited.contains(nodes[j]) {
                let a = choose|a: int| 0 <= a < visited.len() && visited[a] == nodes[j];
                assert(visited[a] == nodes[a]);
            }
        }
        assert(visited.push(nodes[j]) =~= nodes.subrange(0, j + 1));
        lemma_traverse_from(bytes, this, nodes, j + 1);
    }
}

/// A list that is well-formed stays so where none of the bytes of its
/// header and of its links changes.
pub proof fn lemma_is_list_kept(before: Map<int, u8>, after: Map<int, u8>, this: u64, nodes: Seq<u64>)
    requires
        is_list(before, this, nodes),
        same_bytes(before, after, this as int, 24),
        forall|k: int|
            0 <= k < nodes.len() ==> same_bytes(before, after, #[trigger] nodes[k] as int, 16),
    ensures
        is_list(after, this, nodes),
{
    reveal(is_list);
    assert(same_bytes(before, after, this as int, 16));
    assert(same_bytes(before, after, this + 16, 4));
    lemma_load_same::<ListNode>(before, after, this);
    lemma_load_same::<i32>(before, after, (this + LIST_COUNT) as u64);
    assert(covered(after, this as int, 24));
    assert forall|k: int| 0 <= k < nodes.len() implies #[trigger] linked(after, this, nodes, k) by {
        assert(linked(before, this, nodes, k));
        assert(same_bytes(before, after, nodes[k] as int, 16));
        lemma_load_same::<ListNode>(before, after, nodes[k]);
        assert(covered(after, nodes[k] as int, 16));
    }
}

/// The links of a well-formed list differ from one another.
pub proof fn lemma_list_distinct(bytes: Map<int, u8>, this: u64, nodes: Seq<u64>)
    requires
        is_list(bytes, this, nodes),
    ensures
        nodes.no_duplicates(),
{
    reveal(is_list);
    assert forall|a: int, b: int| 0 <= a < nodes.len() && 0 <= b < nodes.len() && a != b implies nodes[a]
        != nodes[b] by {
        if a < b {
            assert(nodes[a] + 16 <= nodes[b] || nodes[b] + 16 <= nodes[a]);
        } else {
            assert(nodes[b] + 16 <= nodes[a] || nodes[a] + 16 <= nodes[b]);
        }
    }
}

/// The header of a well-formed list, as it is read, holds the first and the
/// last link of the list and counts its links.
pub proof fn lemma_list_header<T>(bytes: Map<int, u8>, this: u64, nodes: Seq<u64>)
    requires
        is_list(bytes, this, nodes),
    ensures
        load::<OffsetList<T>>(bytes, this) matches Ok(header) && header.start_end == link(
            ring(this, nodes, nodes.len() - 1),
            ring(this, nodes, 0),
        ) && header.count == nodes.len(),
        nodes.len() <= i32::MAX,
{
    reveal(is_list);
    lemma_header_parts::<T>(bytes, this);
}

impl<T> OffsetList<T> {
    /// The stores that link the element at `item` into the list behind its
    /// last element: the new link lies between the last link and the
    /// sentinel, both point at it, and the list counts one element more.
    pub open spec fn push_back_script(self, this: u64, item: u64) -> Seq<(u64, Seq<u8>)> {
        seq![
            (
                self.node_of(item),
                ListNode::encode(link(self.start_end.prev.address, wrap(this + LIST_START_END))),
            ),
            (
                wrap(self.start_end.prev.address + NODE_NEXT),
                Pointer::<u8>::encode(self.node_of(item)),
            ),
            (wrap(this + LIST_START_END + NODE_PREV), Pointer::<u8>::encode(self.node_of(item))),
            (
                wrap(this + LIST_COUNT),
                i32::encode(
                    if self.count == i32::MAX {
                        i32::MIN
                    } else {
                        (self.count + 1) as i32
                    },
                ),
            ),
        ]
    }

    /// What `push_back` gives for the element at `item`: the bytes
    /// afterwards and the header as it then lies at `this`.
    pub open spec fn push_back_spec(self, bytes: Map<int, u8>, this: u64, item: u64) -> Result<
        (Map<int, u8>, OffsetList<T>),
        Error,
    > {
        run::<OffsetList<T>>(bytes, self, this, self.push_back_script(this, item))
    }

    /// Links the element at `item` into the list behind its last element.
    /// After each store the header is read again from `this`.
    pub fn push_back(&mut self, memory: &mut Memory, this: Pointer<Self>, item: Pointer<T>) -> (r:
        Result<(), Error>)
        ensures
            final(memory).wf(),
            match r {
                Ok(()) => old(self).push_back_spec(old(memory).bytes(), this.address, item.address)
                    == Ok::<(Map<int, u8>, OffsetList<T>), Error>(
                    (final(memory).bytes(), *final(self)),
                ),
                Err(e) => old(self).push_back_spec(old(memory).bytes(), this.address, item.address)
                    == Err::<(Map<int, u8>, OffsetList<T>), Error>(e),
            },
    {
        let node: Pointer = self.obj_to_list_node(item).cast();
        let sentinel = shifted(this.address, LIST_START_END as i64);
        let last = self.start_end.prev;
        let count = self.count.wrapping_add(1);
        let mut script = new_script();
        push_store(
            &mut script,
            node.address,
            &ListNode { prev: last, next: Pointer::new(sentinel) },
        );
        push_store(&mut script, shifted(last.address, NODE_NEXT as i64), &node);
        push_store(&mut script, shifted(this.address, (LIST_START_END + NODE_PREV) as i64), &node);
        push_store(&mut script, shifted(this.address, LIST_COUNT as i64), &count);
        assert(stores_of(script@) == self.push_back_script(this.address, item.address));
        run_stores(memory, self, &this, &script)
    }

    /// Linking an element whose link is stored, and shares no byte with the
    /// header and the links of a well-formed list, into that list leaves a
    /// well-formed list with the new link last, and changes nothing but the
    /// new link, two link fields and the count.
    #[verifier::rlimit(50)]
    pub proof fn lemma_push_back(self, bytes: Map<int, u8>, this: u64, nodes: Seq<u64>, item: u64)
        requires
            is_list(bytes, this, nodes),
            load::<OffsetList<T>>(bytes, this) == Ok::<OffsetList<T>, Error>(self),
            nodes.len() < i32::MAX,
            in_window(self.node_of(item) as int, 16),
            covered(bytes, self.node_of(item) as int, 16),
            self.node_of(item) + 16 <= this || this + 24 <= self.node_of(item),
            forall|k: int|
                0 <= k < nodes.len() ==> self.node_of(item) + 16 <= #[trigger] nodes[k] || nodes[k]
                    + 16 <= self.node_of(item),
        ensures
            self.push_back_spec(bytes, this, item) matches Ok((after, fresh)) && {
                &&& is_list(after, this, nodes.push(self.node_of(item)))
                &&& load::<OffsetList<T>>(after, this) == Ok::<OffsetList<T>, Error>(fresh)
                &&& fresh.count == nodes.len() + 1
                &&& fresh.offset == self.offset
                &&& forall|a: int| after.contains_key(a) == bytes.contains_key(a)
                &&& forall|a: int|
                    bytes.contains_key(a) && !(self.node_of(item) <= a < self.node_of(item) + 16)
                        && !(ring(this, nodes, nodes.len() - 1) + 8 <= a < ring(
                        this,
                        nodes,
                        nodes.len() - 1,
                    ) + 16) && !(this <= a < this + 8) && !(this + 16 <= a < this + 20) ==> after[a]
                        == bytes[a]
            },
    {
        reveal(is_list);
        let n = nodes.len() as int;
        let node = self.node_of(item);
        let last = ring(this, nodes, n - 1);
        let more = nodes.push(node);
        let script = self.push_back_script(this, item);
        lemma_header_parts::<T>(bytes, this);
        lemma_bytes_at_split(bytes, this as int, 24, 16);
        lemma_bytes_at_split(bytes, this as int, 16, 8);
        lemma_bytes_at_split(bytes, this + 16, 8, 4);
        if n > 0 {
            assert(linked(bytes, this, nodes, n - 1));
            lemma_bytes_at_split(bytes, last as int, 16, 8);
        }
        lemma_bytes_at_split(bytes, this + 8, 8, 8);
        ListNode::lemma_layout(link(last, this));
        Pointer::<u8>::lemma_layout(node);
        let count = (n + 1) as i32;
        i32::lemma_layout(count);
        assert(script[0] == (node, ListNode::encode(link(last, this))));
        assert(script[1] == ((last + 8) as u64, Pointer::<u8>::encode(node)));
        assert(script[2] == (this, Pointer::<u8>::encode(node)));
        assert(script[3] == ((this + 16) as u64, i32::encode(count)));
        assert forall|k: int| 0 <= k < script.len() implies in_window(
            (#[trigger] script[k]).0 as int,
            script[k].1.len() as int,
        ) && script[k].1.len() <= usize::MAX && covered(
            bytes,
            script[k].0 as int,
            script[k].1.len() as int,
        ) by {}
        assert(stores_in_window(script));
        lemma_run_ok::<OffsetList<T>>(bytes, self, this, script);
        let after = applied(bytes, script);
        crate::script::lemma_applied_frame(bytes, script);
        lemma_header_parts::<T>(after, this);
        // What lies in the header afterwards.
        assert(stores_apart(script, 4, this + 16, 4));
        lemma_applied_stored::<i32>(bytes, script, 3, (this + LIST_COUNT) as u64, count);
        assert(stores_apart(script, 0, this + 20, 4));
        lemma_applied_outside::<i32>(bytes, script, (this + LIST_OFFSET) as u64);
        Self::lemma_pushed_links(bytes, this, nodes, node, last, count);
        assert forall|a: int|
            bytes.contains_key(a) && !(node <= a < node + 16) && !(last + 8 <= a < last + 16) && !(
            this <= a < this + 8) && !(this + 16 <= a < this + 20) implies after[a] == bytes[a] by {
            assert forall|k: int| 0 <= k < script.len() implies a + 1 <= (#[trigger] script[k]).0
                || script[k].0 + script[k].1.len() <= a by {}
            assert(stores_apart(script, 0, a, 1));
        }
    }

    /// The links of the list after an element has been linked into it.
    #[verifier::rlimit(50)]
    proof fn lemma_pushed_links(
        bytes: Map<int, u8>,
        this: u64,
        nodes: Seq<u64>,
        node: u64,
        last: u64,
        count: i32,
    )
        requires
            is_list(bytes, this, nodes),
            nodes.len() < i32::MAX,
            count == nodes.len() + 1,
            last == ring(this, nodes, nodes.len() - 1),
            in_window(node as int, 16),
            covered(bytes, node as int, 16),
            node + 16 <= this || this + 24 <= node,
            forall|k: int|
                0 <= k < nodes.len() ==> node + 16 <= #[trigger] nodes[k] || nodes[k] + 16 <= node,
        ensures
            is_list(
                applied(
                    bytes,
                    seq![
                        (node, ListNode::encode(link(last, this))),
                        ((last + 8) as u64, Pointer::<u8>::encode(node)),
                        (this, Pointer::<u8>::encode(node)),
                        ((this + 16) as u64, i32::encode(count)),
                    ],
                ),
                this,
                nodes.push(node),
            ),
    {
        reveal(is_list);
        let n = nodes.len() as int;
        let more = nodes.push(node);
        let script = seq![
            (node, ListNode::encode(link(last, this))),
            ((last + 8) as u64, Pointer::<u8>::encode(node)),
            (this, Pointer::<u8>::encode(node)),
            ((this + 16) as u64, i32::encode(count)),
        ];
        let after = applied(bytes, script);
        ListNode::lemma_layout(link(last, this));
        Pointer::<u8>::lemma_layout(node);
        i32::lemma_layout(count);
        lemma_auto_spec_u64_to_from_le_bytes();
        lemma_bytes_at_split(bytes, this as int, 24, 16);
        lemma_bytes_at_split(bytes, this as int, 16, 8);
        lemma_bytes_at_split(bytes, this + 16, 8, 4);
        if n > 0 {
            assert(linked(bytes, this, nodes, n - 1));
        }
        let b1 = written(bytes, node as int, script[0].1);
        let b2 = written(b1, last + 8, script[1].1);
        let b3 = written(b2, this as int, script[2].1);
        let b4 = written(b3, this + 16, script[3].1);
        assert(after == b4) by {
            assert(script.drop_first().drop_first().drop_first().drop_first() =~= Seq::<
                (u64, Seq<u8>),
            >::empty());
            reveal_with_fuel(applied, 5);
        }
        lemma_written_covered(bytes, node as int, script[0].1, this as int, 24);
        lemma_written_covered(b1, last + 8, script[1].1, this as int, 24);
        lemma_written_covered(b2, this as int, script[2].1, this as int, 24);
        lemma_written_covered(b3, this + 16, script[3].1, this as int, 24);
        // Each link after each store.
        assert forall|k: int| 0 <= k < more.len() implies #[trigger] linked(after, this, more, k) by {
            let m = more[k];
            if k < n {
                assert(linked(bytes, this, nodes, k));
            }
            lemma_written_covered(bytes, node as int, script[0].1, m as int, 16);
            lemma_written_covered(b1, last + 8, script[1].1, m as int, 16);
            lemma_written_covered(b2, this as int, script[2].1, m as int, 16);
            lemma_written_covered(b3, this + 16, script[3].1, m as int, 16);
            if k == n {
                lemma_read_after_write::<ListNode>(bytes, node, link(last, this));
            } else {
                lemma_load_outside::<ListNode>(bytes, node as int, script[0].1, m);
            }
            if n > 0 {
                if k == n - 1 {
                    lemma_link_store(b1, (last + 8) as u64, node, m);
                } else {
                    assert(m + 16 <= last || last + 16 <= m) by {
                        if k < n {
                            if k < n - 1 {
                                assert(nodes[k] + 16 <= nodes[n - 1] || nodes[n - 1] + 16
                                    <= nodes[k]);
                            }
                        }
                    }
                    lemma_load_outside::<ListNode>(b1, last + 8, script[1].1, m);
                }
            } else {
                lemma_load_outside::<ListNode>(b1, last + 8, script[1].1, m);
            }
            lemma_load_outside::<ListNode>(b2, this as int, script[2].1, m);
            lemma_load_outside::<ListNode>(b3, this + 16, script[3].1, m);
        }
        // The sentinel.
        lemma_load_outside::<ListNode>(bytes, node as int, script[0].1, this);
        if n == 0 {
            lemma_link_store(b1, (this + 8) as u64, node, this);
        } else {
            lemma_load_outside::<ListNode>(b1, last + 8, script[1].1, this);
        }
        lemma_link_store(b2, this, node, this);
        lemma_load_outside::<ListNode>(b3, this + 16, script[3].1, this);
        lemma_read_after_write::<i32>(b3, (this + 16) as u64, count);
        assert forall|i: int, j: int| 0 <= i < j < more.len() implies (#[trigger] more[i]) + 16 <= (
        #[trigger] more[j]) || more[j] + 16 <= more[i] by {
            if j < n {
                assert(nodes[i] + 16 <= nodes[j] || nodes[j] + 16 <= nodes[i]);
            }
        }
    }
}

/// The links at `chain` lie inside the valid window, differ from one
/// another and from the sentinel, and `next` leads from each to the one
/// after it, and from the last back to the one at position `back`.
pub open spec fn is_cycle(bytes: Map<int, u8>, sentinel: u64, chain: Seq<u64>, back: int) -> bool {
    &&& 0 <= back < chain.len()
    &&& chain.no_duplicates()
    &&& forall|i: int|
        0 <= i < chain.len() ==> (#[trigger] chain[i]) != sentinel && leads_to(
            bytes,
            chain[i],
            if i + 1 < chain.len() {
                chain[i + 1]
            } else {
                chain[back]
            },
        )
}

/// The link at `node` can be read, and its `next` is `next`.
pub open spec fn leads_to(bytes: Map<int, u8>, node: u64, next: u64) -> bool {
    load::<ListNode>(bytes, node) matches Ok(link) && link.next.address == next
}

/// A traversal that has come to position `j` of a chain of links that
/// leads back into itself, through the links before it, fails at the link
/// that the chain leads back to.
proof fn lemma_cycle_from(bytes: Map<int, u8>, sentinel: u64, chain: Seq<u64>, back: int, j: int)
    requires
        is_cycle(bytes, sentinel, chain, back),
        0 <= j < chain.len(),
    ensures
        traverse_from(bytes, sentinel, chain[j], chain.subrange(0, j)) == Err::<(), Error>(
            Error::CorruptList { node: chain[back] },
        ),
    decreases chain.len() - j,
{
    let visited = chain.subrange(0, j);
    assert forall|i: int| 0 <= i < visited.len() implies ASLR_START <= #[trigger] visited[i]
        < ASLR_END by {
        assert(visited[i] == chain[i]);
        assert(load::<ListNode>(bytes, chain[i]) is Ok);
    }
    assert forall|a: int, b: int| 0 <= a < visited.len() && 0 <= b < visited.len() && a != b implies visited[a]
        != visited[b] by {
        assert(visited[a] == chain[a] && visited[b] == chain[b]);
    }
    assert(distinct_in_window(visited));
    assert(load::<ListNode>(bytes, chain[j]) is Ok);
    assert(!visited.contains(chain[j])) by {
        if visited.contains(chain[j]) {
            let a = choose|a: int| 0 <= a < visited.len() && visited[a] == chain[j];
            assert(visited[a] == chain[a]);
        }
    }
    let more = visited.push(chain[j]);
    assert(more =~= chain.subrange(0, j + 1));
    lemma_visit(visited, chain[j]);
    if j + 1 < chain.len() {
        lemma_cycle_from(bytes, sentinel, chain, back, j + 1);
    } else {
        assert(more[back] == chain[back]);
        assert(more.contains(chain[back]));
        assert(traverse_from(bytes, sentinel, chain[back], more) == Err::<(), Error>(
            Error::CorruptList { node: chain[back] },
        ));
    }
}

impl<T> OffsetList<T> {
    /// The traversal of a list whose links lead back into themselves before
    /// they reach the sentinel fails with `CorruptList`, at the link that
    /// they lead back to.
    pub proof fn lemma_traverse_cycle(self, bytes: Map<int, u8>, this: u64, chain: Seq<u64>, back: int)
        requires
            self.count != 0,
            is_cycle(bytes, wrap(this + LIST_START_END), chain, back),
            self.start_end.next.address == chain[0],
        ensures
            self.traverse_spec(bytes, this) == Err::<(), Error>(
                Error::CorruptList { node: chain[back] },
            ),
    {
        lemma_cycle_from(bytes, wrap(this + LIST_START_END), chain, back, 0);
        assert(chain.subrange(0, 0) =~= Seq::<u64>::empty());
    }
}

} // verus!
