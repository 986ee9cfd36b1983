//! Sorting an intrusive list: its links are gathered, put in order by a
//! predicate of the caller, and linked anew in that order.
use vstd::prelude::*;

use crate::error::Error;
use crate::list::{
    distinct_in_window, is_list, lemma_header_parts, lemma_visit, link, linked, LIST_COUNT,
    LIST_OFFSET, LIST_START_END, ListNode, OffsetList, ring, seen_before,
};
use crate::mem::{ASLR_END, ASLR_START, covered, in_window, load, Memory, Pointer, shifted, wrap};
use crate::script::{
    applied, lemma_applied_frame, lemma_applied_outside, lemma_applied_stored, lemma_run_ok,
    push_store, run, run_stores, stores_apart, stores_in_window, stores_of,
};
use crate::traits::Updatable;

verus! {

/// An order of the elements of a list, as the caller of `sort` supplies it.
///
/// The answer is negative where the left element goes before the right one,
/// positive where it goes after it, and zero where either order will do.
pub trait SortPredicate<T> {
    /// What comparing the elements at `lhs` and `rhs` gives.
    spec fn order(&self, bytes: Map<int, u8>, lhs: u64, rhs: u64) -> Result<i32, Error>;

    /// Compares the elements at `lhs` and `rhs`.
    fn compare(&self, memory: &Memory, lhs: Pointer<T>, rhs: Pointer<T>) -> (r: Result<i32, Error>)
        ensures
            r == self.order(memory.bytes(), lhs.address, rhs.address),
    ;
}

/// The links from the link at `node` up to the sentinel, after the links at
/// `visited`, in the order in which `next` leads through them; the failure
/// at a link that was seen before, or that cannot be read.
pub open spec fn gather_from(bytes: Map<int, u8>, sentinel: u64, node: u64, visited: Seq<u64>) -> Result<
    Seq<u64>,
    Error,
>
    decreases ASLR_END - ASLR_START - visited.len(),
    when distinct_in_window(visited)
{
    if node == sentinel {
        Ok(visited)
    } else if visited.contains(node) {
        Err(Error::CorruptList { node })
    } else {
        match load::<ListNode>(bytes, node) {
            Err(e) => Err(e),
            Ok(link) => {
                proof {
                    lemma_visit(visited, node);
                }
                gather_from(bytes, sentinel, link.next.address, visited.push(node))
            },
        }
    }
}

/// The stores that link the links at `nodes` into a ring, in this order,
/// which the sentinel at `this` closes: each link is stored whole, with the
/// link before it and the link after it, and the sentinel last.
pub open spec fn relink_script(this: u64, nodes: Seq<u64>) -> Seq<(u64, Seq<u8>)> {
    Seq::new(
        nodes.len(),
        |k: int|
            (nodes[k], ListNode::encode(link(ring(this, nodes, k - 1), ring(this, nodes, k + 1)))),
    ).push(
        (
            wrap(this + LIST_START_END),
            ListNode::encode(link(ring(this, nodes, nodes.len() - 1), ring(this, nodes, 0))),
        ),
    )
}

impl<T> OffsetList<T> {
    /// Where, among the first `j` links of `sorted`, the link at `x` goes:
    /// behind the last of them that the predicate does not put after it.
    pub open spec fn place_spec<P: SortPredicate<T>>(
        self,
        predicate: P,
        bytes: Map<int, u8>,
        sorted: Seq<u64>,
        x: u64,
        j: int,
    ) -> Result<int, Error>
        decreases j,
    {
        if j <= 0 {
            Ok(0)
        } else {
            match predicate.order(bytes, self.obj_of(sorted[j - 1]), self.obj_of(x)) {
                Err(e) => Err(e),
                Ok(c) => if c > 0 {
                    self.place_spec(predicate, bytes, sorted, x, j - 1)
                } else {
                    Ok(j)
                },
            }
        }
    }

    /// The first `k` links of `nodes` in the order of the predicate: each
    /// link is put in its place among the links before it, and links that
    /// the predicate does not tell apart keep their order.
    pub open spec fn sorted_spec<P: SortPredicate<T>>(
        self,
        predicate: P,
        bytes: Map<int, u8>,
        nodes: Seq<u64>,
        k: int,
    ) -> Result<Seq<u64>, Error>
        decreases k,
    {
        if k <= 0 {
            Ok(Seq::empty())
        } else {
            match self.sorted_spec(predicate, bytes, nodes, k - 1) {
                Err(e) => Err(e),
                Ok(sorted) => match self.place_spec(
                    predicate,
                    bytes,
                    sorted,
                    nodes[k - 1],
                    sorted.len() as int,
                ) {
                    Err(e) => Err(e),
                    Ok(j) => Ok(sorted.insert(j, nodes[k - 1])),
                },
            }
        }
    }

    /// Once a comparison has failed, putting more links in order fails in
    /// the same way.
    pub proof fn lemma_sorted_fails<P: SortPredicate<T>>(
        self,
        predicate: P,
        bytes: Map<int, u8>,
        nodes: Seq<u64>,
        k: int,
        n: int,
    )
        requires
            0 < k <= n,
            self.sorted_spec(predicate, bytes, nodes, k) is Err,
        ensures
            self.sorted_spec(predicate, bytes, nodes, n) == self.sorted_spec(
                predicate,
                bytes,
                nodes,
                k,
            ),
        decreases n - k,
    {
        if k < n {
            self.lemma_sorted_fails(predicate, bytes, nodes, k, n - 1);
        }
    }

    /// What `sort` gives: the bytes afterwards and the header as it then
    /// lies at `this`.
    pub open spec fn sort_spec<P: SortPredicate<T>>(
        self,
        predicate: P,
        bytes: Map<int, u8>,
        this: u64,
    ) -> Result<(Map<int, u8>, OffsetList<T>), Error> {
        match gather_from(
            bytes,
            wrap(this + LIST_START_END),
            self.start_end.next.address,
            Seq::<u64>::empty(),
        ) {
            Err(e) => Err(e),
            Ok(nodes) => match self.sorted_spec(predicate, bytes, nodes, nodes.len() as int) {
                Err(e) => Err(e),
                Ok(sorted) => run::<OffsetList<T>>(bytes, self, this, relink_script(this, sorted)),
            },
        }
    }

    /// The links of the list, in the order in which `next` leads through them.
    fn gather(&self, memory: &Memory, this: Pointer<Self>) -> (r: Result<Vec<u64>, Error>)
        ensures
            match r {
                Ok(nodes) => gather_from(
                    memory.bytes(),
                    wrap(this.address + LIST_START_END),
                    self.start_end.next.address,
                    Seq::<u64>::empty(),
                ) == Ok::<Seq<u64>, Error>(nodes@),
                Err(e) => gather_from(
                    memory.bytes(),
                    wrap(this.address + LIST_START_END),
                    self.start_end.next.address,
                    Seq::<u64>::empty(),
                ) == Err::<Seq<u64>, Error>(e),
            },
    {
        let sentinel = shifted(this.address, LIST_START_END as i64);
        let mut node = self.start_end.next.address;
        let mut visited: Vec<u64> = Vec::new();
        while node != sentinel
            invariant
                distinct_in_window(visited@),
                sentinel == wrap(this.address + LIST_START_END),
                gather_from(memory.bytes(), sentinel, node, visited@) == gather_from(
                    memory.bytes(),
                    sentinel,
                    self.start_end.next.address,
                    Seq::<u64>::empty(),
                ),
            decreases ASLR_END - ASLR_START - visited.len(),
        {
            if seen_before(&visited, node) {
                return Err(Error::CorruptList { node });
            }
            match memory.read::<ListNode>(node) {
                Err(e) => {
                    return Err(e);
                },
                Ok(link) => {
                    proof {
                        lemma_visit(visited@, node);
                    }
                    visited.push(node);
                    node = link.next.address;
                },
            }
        }
        Ok(visited)
    }

    /// The links at `nodes` in the order of the predicate.
    fn sorted<P: SortPredicate<T>>(&self, memory: &Memory, predicate: &P, nodes: &Vec<u64>) -> (r:
        Result<Vec<u64>, Error>)
        ensures
            match r {
                Ok(sorted) => self.sorted_spec(*predicate, memory.bytes(), nodes@, nodes@.len() as int)
                    == Ok::<Seq<u64>, Error>(sorted@),
                Err(e) => self.sorted_spec(*predicate, memory.bytes(), nodes@, nodes@.len() as int)
                    == Err::<Seq<u64>, Error>(e),
            },
    {
        let mut sorted: Vec<u64> = Vec::new();
        let mut k: usize = 0;
        while k < nodes.len()
            invariant
                0 <= k <= nodes.len(),
                sorted@.len() == k,
                self.sorted_spec(*predicate, memory.bytes(), nodes@, k as int) == Ok::<
                    Seq<u64>,
                    Error,
                >(sorted@),
            decreases nodes.len() - k,
        {
            let x = nodes[k];
            let mut j: usize = sorted.len();
            let mut found = false;
            while j > 0 && !found
                invariant
                    0 <= j <= sorted@.len(),
                    sorted@.len() == k,
                    k < nodes@.len(),
                    x == nodes@[k as int],
                    self.sorted_spec(*predicate, memory.bytes(), nodes@, k as int) == Ok::<
                        Seq<u64>,
                        Error,
                    >(sorted@),
                    self.place_spec(*predicate, memory.bytes(), sorted@, x, sorted@.len() as int)
                        == self.place_spec(*predicate, memory.bytes(), sorted@, x, j as int),
                    found ==> self.place_spec(*predicate, memory.bytes(), sorted@, x, j as int)
                        == Ok::<int, Error>(j as int),
                decreases j + if found { 0int } else { 1int },
            {
                let c = match predicate.compare(
                    memory,
                    self.list_node_to_obj(Pointer::new(sorted[j - 1])),
                    self.list_node_to_obj(Pointer::new(x)),
                ) {
                    Err(e) => {
                        proof {
                            self.lemma_sorted_fails(
                                *predicate,
                                memory.bytes(),
                                nodes@,
                                k + 1,
                                nodes@.len() as int,
                            );
                        }
                        return Err(e);
                    },
                    Ok(c) => c,
                };
                if c > 0 {
                    j -= 1;
                } else {
                    found = true;
                }
            }
            sorted.insert(j, x);
            k += 1;
        }
        Ok(sorted)
    }

    /// Puts the elements of the list in the order of `predicate`, and keeps
    /// the order of elements that the predicate does not tell apart.
    ///
    /// Fails where the ring of links is broken: with [`Error::CorruptList`]
    /// at a link that is reached a second time, and with the failure of the
    /// read at a link that cannot be read.
    pub fn sort<P: SortPredicate<T>>(
        &mut self,
        memory: &mut Memory,
        this: Pointer<Self>,
        predicate: &P,
    ) -> (r: Result<(), Error>)
        ensures
            final(memory).wf(),
            match r {
                Ok(()) => old(self).sort_spec(*predicate, old(memory).bytes(), this.address) == Ok::<
                    (Map<int, u8>, OffsetList<T>),
                    Error,
                >((final(memory).bytes(), *final(self))),
                Err(e) => old(self).sort_spec(*predicate, old(memory).bytes(), this.address)
                    == Err::<(Map<int, u8>, OffsetList<T>), Error>(e),
            },
    {
        proof {
            use_type_invariant(&*memory);
        }
        let nodes = match self.gather(memory, this) {
            Err(e) => {
                return Err(e);
            },
            Ok(nodes) => nodes,
        };
        let sorted = match self.sorted(memory, predicate, &nodes) {
            Err(e) => {
                return Err(e);
            },
            Ok(sorted) => sorted,
        };
        let sentinel = shifted(this.address, LIST_START_END as i64);
        let count = sorted.len();
        let mut script: Vec<(u64, Vec<u8>)> = Vec::new();
        assert(stores_of(script@) =~= Seq::<(u64, Seq<u8>)>::empty());
        let mut k: usize = 0;
        while k < count
            invariant
                0 <= k <= count,
                count == sorted@.len(),
                sentinel == wrap(this.address + LIST_START_END),
                stores_of(script@) == Seq::new(
                    k as nat,
                    |i: int|
                        (
                            sorted@[i],
                            ListNode::encode(
                                link(
                                    ring(sentinel, sorted@, i - 1),
                                    ring(sentinel, sorted@, i + 1),
                                ),
                            ),
                        ),
                ),
            decreases count - k,
        {
            let before = if k > 0 {
                sorted[k - 1]
            } else {
                sentinel
            };
            let after = if k + 1 < count {
                sorted[k + 1]
            } else {
                sentinel
            };
            let ghost prior = stores_of(script@);
            push_store(
                &mut script,
                sorted[k],
                &ListNode { prev: Pointer::new(before), next: Pointer::new(after) },
            );
            assert(stores_of(script@) =~= Seq::new(
                (k + 1) as nat,
                |i: int|
                    (
                        sorted@[i],
                        ListNode::encode(
                            link(ring(sentinel, sorted@, i - 1), ring(sentinel, sorted@, i + 1)),
                        ),
                    ),
            ));
            k += 1;
        }
        let last = if count > 0 {
            sorted[count - 1]
        } else {
            sentinel
        };
        let first = if count > 0 {
            sorted[0]
        } else {
            sentinel
        };
        push_store(
            &mut script,
            sentinel,
            &ListNode { prev: Pointer::new(last), next: Pointer::new(first) },
        );
        assert(stores_of(script@) =~= relink_script(this.address, sorted@));
        run_stores(memory, self, &this, &script)
    }
}

/// In a well-formed list, gathering the links from position `j` on, after
/// the links before it, gives all the links of the list in their order.
pub proof fn lemma_gather_from(bytes: Map<int, u8>, this: u64, nodes: Seq<u64>, j: int)
    requires
        is_list(bytes, this, nodes),
        0 <= j <= nodes.len(),
    ensures
        distinct_in_window(nodes.subrange(0, j)),
        gather_from(bytes, this, ring(this, nodes, j), nodes.subrange(0, j)) == Ok::<
            Seq<u64>,
            Error,
        >(nodes),
    decreases nodes.len() - j,
{
    reveal(is_list);
    let visited = nodes.subrange(0, j);
    assert forall|i: int| 0 <= i < visited.len() implies ASLR_START <= #[trigger] visited[i]
        < ASLR_END by {
        assert(linked(bytes, this, nodes, i));
    }
    assert forall|a: int, b: int| 0 <= a < visited.len() && 0 <= b < visited.len() && a != b implies visited[a]
        != visited[b] by {
        assert(visited[a] == nodes[a] && visited[b] == nodes[b]);
    }
    if j < nodes.len() {
        assert(linked(bytes, this, nodes, j));
        assert(!visited.contains(nodes[j])) by {
            if visited.contains(nodes[j]) {
                let a = choose|a: int| 0 <= a < visited.len() && visited[a] == nodes[j];
                assert(visited[a] == nodes[a]);
            }
        }
        assert(visited.push(nodes[j]) =~= nodes.subrange(0, j + 1));
        lemma_gather_from(bytes, this, nodes, j + 1);
    } else {
        assert(visited =~= nodes);
    }
}

/// The predicate, asked about the links at `first` and `second` in this
/// order, puts the first after the second.
pub open spec fn goes_after<T, P: SortPredicate<T>>(
    list: OffsetList<T>,
    predicate: P,
    bytes: Map<int, u8>,
    first: u64,
    second: u64,
) -> bool {
    predicate.order(bytes, list.obj_of(first), list.obj_of(second)) matches Ok(c) && c > 0
}

/// The predicate, asked about the links at `first` and `second` in this
/// order, does not put the first after the second.
pub open spec fn stays_before<T, P: SortPredicate<T>>(
    list: OffsetList<T>,
    predicate: P,
    bytes: Map<int, u8>,
    first: u64,
    second: u64,
) -> bool {
    predicate.order(bytes, list.obj_of(first), list.obj_of(second)) matches Ok(c) && c <= 0
}

/// Two links stand one behind the other as the predicate will have them:
/// asked about them in this order it does not put the first after the
/// second, or asked the other way round it puts the second after the first.
pub open spec fn in_order<T, P: SortPredicate<T>>(
    list: OffsetList<T>,
    predicate: P,
    bytes: Map<int, u8>,
    first: u64,
    second: u64,
) -> bool {
    stays_before(list, predicate, bytes, first, second) || goes_after(
        list,
        predicate,
        bytes,
        second,
        first,
    )
}

impl<T> OffsetList<T> {
    /// The place that a link is given among links in order is a place among
    /// them; the link behind which it goes does not go after it, and every
    /// link that it goes before goes after it.
    pub proof fn lemma_place<P: SortPredicate<T>>(
        self,
        predicate: P,
        bytes: Map<int, u8>,
        sorted: Seq<u64>,
        x: u64,
        j: int,
    )
        requires
            0 <= j <= sorted.len(),
            self.place_spec(predicate, bytes, sorted, x, j) is Ok,
        ensures
            0 <= self.place_spec(predicate, bytes, sorted, x, j)->Ok_0 <= j,
            ({
                let at = self.place_spec(predicate, bytes, sorted, x, j)->Ok_0;
                &&& at > 0 ==> in_order(self, predicate, bytes, sorted[at - 1], x)
                &&& forall|i: int|
                    at <= i < j ==> goes_after(self, predicate, bytes, #[trigger] sorted[i], x)
            }),
        decreases j,
    {
        if j > 0 {
            let c = predicate.order(bytes, self.obj_of(sorted[j - 1]), self.obj_of(x))->Ok_0;
            if c > 0 {
                self.lemma_place(predicate, bytes, sorted, x, j - 1);
            }
        }
    }

    /// Links that have been put in order are the links that were given, each
    /// once, and any two of them that stand one behind the other are in
    /// order.
    #[verifier::rlimit(50)]
    pub proof fn lemma_sorted<P: SortPredicate<T>>(
        self,
        predicate: P,
        bytes: Map<int, u8>,
        nodes: Seq<u64>,
        k: int,
    )
        requires
            0 <= k <= nodes.len(),
            nodes.no_duplicates(),
            self.sorted_spec(predicate, bytes, nodes, k) is Ok,
        ensures
            ({
                let sorted = self.sorted_spec(predicate, bytes, nodes, k)->Ok_0;
                &&& sorted.len() == k
                &&& sorted.no_duplicates()
                &&& forall|x: u64| sorted.contains(x) <==> nodes.subrange(0, k).contains(x)
                &&& forall|i: int|
                    0 < i < sorted.len() ==> in_order(
                        self,
                        predicate,
                        bytes,
                        sorted[i - 1],
                        #[trigger] sorted[i],
                    )
            }),
        decreases k,
    {
        if k > 0 {
            let before = self.sorted_spec(predicate, bytes, nodes, k - 1)->Ok_0;
            self.lemma_sorted(predicate, bytes, nodes, k - 1);
            let x = nodes[k - 1];
            let head = nodes.subrange(0, k - 1);
            let upto = nodes.subrange(0, k);
            self.lemma_place(predicate, bytes, before, x, before.len() as int);
            let j = self.place_spec(predicate, bytes, before, x, before.len() as int)->Ok_0;
            let sorted = before.insert(j, x);
            assert(!before.contains(x)) by {
                if before.contains(x) {
                    assert(head.contains(x));
                    let a = choose|a: int| 0 <= a < head.len() && head[a] == x;
                    assert(nodes[a] == nodes[k - 1]);
                }
            }
            assert forall|a: int, b: int| 0 <= a < sorted.len() && 0 <= b < sorted.len() && a != b implies sorted[a]
                != sorted[b] by {
                let a0 = if a < j {
                    a
                } else {
                    a - 1
                };
                let b0 = if b < j {
                    b
                } else {
                    b - 1
                };
                if a != j {
                    assert(sorted[a] == before[a0]);
                    assert(before.contains(before[a0]));
                }
                if b != j {
                    assert(sorted[b] == before[b0]);
                    assert(before.contains(before[b0]));
                }
            }
            assert forall|y: u64| sorted.contains(y) <==> upto.contains(y) by {
                if sorted.contains(y) {
                    let a = choose|a: int| 0 <= a < sorted.len() && sorted[a] == y;
                    if a == j {
                        assert(upto[k - 1] == y);
                    } else {
                        let a0 = if a < j {
                            a
                        } else {
                            a - 1
                        };
                        assert(before[a0] == y);
                        assert(before.contains(y));
                        let m = choose|m: int| 0 <= m < head.len() && head[m] == y;
                        assert(upto[m] == y);
                    }
                }
                if upto.contains(y) {
                    let m = choose|m: int| 0 <= m < upto.len() && upto[m] == y;
                    if m == k - 1 {
                        assert(sorted[j] == y);
                    } else {
                        assert(head[m] == y);
                        assert(before.contains(y));
                        let a = choose|a: int| 0 <= a < before.len() && before[a] == y;
                        let a1 = if a < j {
                            a
                        } else {
                            a + 1
                        };
                        assert(sorted[a1] == y);
                    }
                }
            }
            assert forall|i: int| 0 < i < sorted.len() implies in_order(
                self,
                predicate,
                bytes,
                sorted[i - 1],
                #[trigger] sorted[i],
            ) by {
                if i < j {
                    assert(sorted[i] == before[i] && sorted[i - 1] == before[i - 1]);
                } else if i == j {
                    assert(sorted[i - 1] == before[j - 1]);
                } else if i == j + 1 {
                    assert(sorted[i] == before[j]);
                } else {
                    assert(sorted[i] == before[i - 1] && sorted[i - 1] == before[i - 2]);
                }
            }
        }
    }

    /// Where the predicate puts no link after another, putting links in
    /// order leaves them in the order that they had.
    pub proof fn lemma_sorted_same<P: SortPredicate<T>>(
        self,
        predicate: P,
        bytes: Map<int, u8>,
        nodes: Seq<u64>,
        k: int,
    )
        requires
            0 <= k <= nodes.len(),
            forall|lhs: u64, rhs: u64| #[trigger]
                stays_before(self, predicate, bytes, lhs, rhs),
        ensures
            self.sorted_spec(predicate, bytes, nodes, k) == Ok::<Seq<u64>, Error>(
                nodes.subrange(0, k),
            ),
        decreases k,
    {
        if k > 0 {
            self.lemma_sorted_same(predicate, bytes, nodes, k - 1);
            let before = nodes.subrange(0, k - 1);
            let x = nodes[k - 1];
            if k > 1 {
                assert(stays_before(self, predicate, bytes, before[k - 2], x));
            }
            assert(self.place_spec(predicate, bytes, before, x, k - 1) == Ok::<int, Error>(k - 1));
            assert(before.insert(k - 1, x) =~= nodes.subrange(0, k));
        } else {
            assert(nodes.subrange(0, 0) =~= Seq::<u64>::empty());
        }
    }
}

/// The store at position `k` of the stores that link links anew.
proof fn lemma_relink_script(this: u64, nodes: Seq<u64>)
    ensures
        relink_script(this, nodes).len() == nodes.len() + 1,
        forall|k: int|
            0 <= k < nodes.len() ==> #[trigger] relink_script(this, nodes)[k] == (
                nodes[k],
                ListNode::encode(link(ring(this, nodes, k - 1), ring(this, nodes, k + 1))),
            ),
        relink_script(this, nodes)[nodes.len() as int] == (
            wrap(this + LIST_START_END),
            ListNode::encode(link(ring(this, nodes, nodes.len() - 1), ring(this, nodes, 0))),
        ),
{
}

/// A link of a list in a new order is a link of the list: it lies inside
/// the valid window, is stored, and shares no byte with the header.
proof fn lemma_member(bytes: Map<int, u8>, this: u64, nodes: Seq<u64>, order: Seq<u64>, k: int)
    requires
        is_list(bytes, this, nodes),
        forall|x: u64| order.contains(x) <==> nodes.contains(x),
        0 <= k < order.len(),
    ensures
        in_window(order[k] as int, 16),
        covered(bytes, order[k] as int, 16),
        order[k] + 16 <= this || this + 24 <= order[k],
{
    reveal(is_list);
    assert(order.contains(order[k]));
    let m = choose|m: int| 0 <= m < nodes.len() && nodes[m] == order[k];
    assert(linked(bytes, this, nodes, m));
}

/// Two links of a list in a new order share no byte.
proof fn lemma_members_apart(
    bytes: Map<int, u8>,
    this: u64,
    nodes: Seq<u64>,
    order: Seq<u64>,
    a: int,
    b: int,
)
    requires
        is_list(bytes, this, nodes),
        order.no_duplicates(),
        forall|x: u64| order.contains(x) <==> nodes.contains(x),
        0 <= a < order.len(),
        0 <= b < order.len(),
        a != b,
    ensures
        order[a] + 16 <= order[b] || order[b] + 16 <= order[a],
{
    reveal(is_list);
    assert(order.contains(order[a]));
    assert(order.contains(order[b]));
    let m = choose|m: int| 0 <= m < nodes.len() && nodes[m] == order[a];
    let n = choose|n: int| 0 <= n < nodes.len() && nodes[n] == order[b];
    assert(m != n);
    if m < n {
        assert(nodes[m] + 16 <= nodes[n] || nodes[n] + 16 <= nodes[m]);
    } else {
        assert(nodes[n] + 16 <= nodes[m] || nodes[m] + 16 <= nodes[n]);
    }
}

impl<T> OffsetList<T> {
    /// Linking the links of a well-formed list anew, in an order that holds
    /// each of them once, leaves a well-formed list in that order with the
    /// count that it had, and changes no byte outside the links and the
    /// sentinel.
    #[verifier::rlimit(50)]
    pub proof fn lemma_relink(self, bytes: Map<int, u8>, this: u64, nodes: Seq<u64>, order: Seq<u64>)
        requires
            is_list(bytes, this, nodes),
            order.len() == nodes.len(),
            order.no_duplicates(),
            forall|x: u64| order.contains(x) <==> nodes.contains(x),
        ensures
            run::<OffsetList<T>>(bytes, self, this, relink_script(this, order)) matches Ok(
                (after, fresh),
            ) && {
                &&& is_list(after, this, order)
                &&& load::<OffsetList<T>>(after, this) == Ok::<OffsetList<T>, Error>(fresh)
                &&& fresh.count == nodes.len()
                &&& load::<i32>(after, (this + LIST_OFFSET) as u64) == load::<i32>(
                    bytes,
                    (this + LIST_OFFSET) as u64,
                )
                &&& forall|a: int| after.contains_key(a) == bytes.contains_key(a)
                &&& forall|a: int|
                    bytes.contains_key(a) && !(this <= a < this + 16) && (forall|k: int|
                        0 <= k < order.len() ==> !((#[trigger] order[k]) <= a < order[k] + 16))
                        ==> after[a] == bytes[a]
            },
    {
        reveal(is_list);
        let script = relink_script(this, order);
        let n = order.len() as int;
        let after = applied(bytes, script);
        lemma_relink_script(this, order);
        ListNode::lemma_layout(link(ring(this, order, n - 1), ring(this, order, 0)));
        crate::mem::lemma_bytes_at_split(bytes, this as int, 24, 16);
        assert forall|k: int| 0 <= k < script.len() implies in_window(
            (#[trigger] script[k]).0 as int,
            script[k].1.len() as int,
        ) && script[k].1.len() <= usize::MAX && script[k].1.len() == 16 && covered(
            bytes,
            script[k].0 as int,
            16,
        ) by {
            if k < n {
                lemma_member(bytes, this, nodes, order, k);
                ListNode::lemma_layout(link(ring(this, order, k - 1), ring(this, order, k + 1)));
            }
        }
        assert(stores_in_window(script));
        lemma_run_ok::<OffsetList<T>>(bytes, self, this, script);
        lemma_applied_frame(bytes, script);
        lemma_header_parts::<T>(after, this);
        // The count and the link offset lie apart from every store.
        assert forall|k: int| 0 <= k < script.len() implies this + 24 <= (#[trigger] script[k]).0
            || script[k].0 + script[k].1.len() <= this + 16 by {
            if k < n {
                lemma_member(bytes, this, nodes, order, k);
            }
        }
        assert(stores_apart(script, 0, this + 16, 4));
        assert(stores_apart(script, 0, this + 20, 4));
        lemma_applied_outside::<i32>(bytes, script, (this + LIST_COUNT) as u64);
        lemma_applied_outside::<i32>(bytes, script, (this + LIST_OFFSET) as u64);
        // The sentinel is stored last.
        assert(stores_apart(script, n + 1, this as int, 16));
        lemma_applied_stored::<ListNode>(
            bytes,
            script,
            n,
            this,
            link(ring(this, order, n - 1), ring(this, order, 0)),
        );
        // Every link holds what was stored in it.
        assert forall|k: int| 0 <= k < order.len() implies #[trigger] linked(after, this, order, k) by {
            lemma_member(bytes, this, nodes, order, k);
            assert forall|j: int| k + 1 <= j < script.len() implies order[k] + 16 <= (
            #[trigger] script[j]).0 || script[j].0 + script[j].1.len() <= order[k] by {
                if j < n {
                    lemma_members_apart(bytes, this, nodes, order, k, j);
                }
            }
            assert(stores_apart(script, k + 1, order[k] as int, 16));
            lemma_applied_stored::<ListNode>(
                bytes,
                script,
                k,
                order[k],
                link(ring(this, order, k - 1), ring(this, order, k + 1)),
            );
            assert forall|a: int| order[k] <= a < order[k] + 16 implies after.contains_key(a) by {
                assert(bytes.contains_key(a));
            }
        }
        assert forall|a: int, b: int| 0 <= a < b < order.len() implies (#[trigger] order[a]) + 16
            <= (#[trigger] order[b]) || order[b] + 16 <= order[a] by {
            lemma_members_apart(bytes, this, nodes, order, a, b);
        }
        assert(covered(after, this as int, 24)) by {
            assert forall|a: int| this <= a < this + 24 implies after.contains_key(a) by {
                assert(bytes.contains_key(a));
            }
        }
        assert forall|a: int|
            bytes.contains_key(a) && !(this <= a < this + 16) && (forall|k: int|
                0 <= k < order.len() ==> !((#[trigger] order[k]) <= a < order[k] + 16)) implies after[a]
            == bytes[a] by {
            assert forall|k: int| 0 <= k < script.len() implies a + 1 <= (#[trigger] script[k]).0
                || script[k].0 + script[k].1.len() <= a by {
                if k < n {
                    assert(!(order[k] <= a < order[k] + 16));
                }
            }
            assert(stores_apart(script, 0, a, 1));
        }
    }

    /// Sorting a well-formed list, with a predicate that answers, leaves a
    /// well-formed list of the same elements, each once, in which any two
    /// that stand one behind the other are in order; the count stays.
    #[verifier::rlimit(50)]
    pub proof fn lemma_sort<P: SortPredicate<T>>(
        self,
        predicate: P,
        bytes: Map<int, u8>,
        this: u64,
        nodes: Seq<u64>,
    )
        requires
            is_list(bytes, this, nodes),
            load::<OffsetList<T>>(bytes, this) == Ok::<OffsetList<T>, Error>(self),
            self.sorted_spec(predicate, bytes, nodes, nodes.len() as int) is Ok,
        ensures
            self.sort_spec(predicate, bytes, this) matches Ok((after, fresh)) && {
                let order = self.sorted_spec(predicate, bytes, nodes, nodes.len() as int)->Ok_0;
                &&& is_list(after, this, order)
                &&& load::<OffsetList<T>>(after, this) == Ok::<OffsetList<T>, Error>(fresh)
                &&& fresh.count == self.count
                &&& order.len() == nodes.len()
                &&& order.no_duplicates()
                &&& forall|x: u64| order.contains(x) <==> nodes.contains(x)
                &&& forall|i: int|
                    0 < i < order.len() ==> in_order(
                        self,
                        predicate,
                        bytes,
                        order[i - 1],
                        #[trigger] order[i],
                    )
                &&& forall|a: int| after.contains_key(a) == bytes.contains_key(a)
                &&& forall|a: int|
                    bytes.contains_key(a) && !(this <= a < this + 16) && (forall|k: int|
                        0 <= k < order.len() ==> !((#[trigger] order[k]) <= a < order[k] + 16))
                        ==> after[a] == bytes[a]
            },
    {
        crate::list::lemma_list_header::<T>(bytes, this, nodes);
        lemma_gather_from(bytes, this, nodes, 0);
        assert(nodes.subrange(0, 0) =~= Seq::<u64>::empty());
        assert(nodes.subrange(0, nodes.len() as int) =~= nodes);
        crate::list::lemma_list_distinct(bytes, this, nodes);
        self.lemma_sorted(predicate, bytes, nodes, nodes.len() as int);
        let order = self.sorted_spec(predicate, bytes, nodes, nodes.len() as int)->Ok_0;
        self.lemma_relink(bytes, this, nodes, order);
    }
}

/// The link `first` stands before the link `second` in `sorted`.
pub open spec fn stands_before(sorted: Seq<u64>, first: u64, second: u64) -> bool {
    exists|p: int, q: int|
        0 <= p < q < sorted.len() && #[trigger] sorted[p] == first && #[trigger] sorted[q] == second
}

impl<T> OffsetList<T> {
    /// Putting links in order is stable: a link never comes to stand before
    /// a link that stood before it and that the predicate, asked about the
    /// two in their old order, does not put after it.
    pub proof fn lemma_sorted_stable<P: SortPredicate<T>>(
        self,
        predicate: P,
        bytes: Map<int, u8>,
        nodes: Seq<u64>,
        k: int,
        a: int,
        b: int,
    )
        requires
            0 <= a < b < k <= nodes.len(),
            nodes.no_duplicates(),
            self.sorted_spec(predicate, bytes, nodes, k) is Ok,
            stays_before(self, predicate, bytes, nodes[a], nodes[b]),
        ensures
            stands_before(self.sorted_spec(predicate, bytes, nodes, k)->Ok_0, nodes[a], nodes[b]),
        decreases k,
    {
        let before = self.sorted_spec(predicate, bytes, nodes, k - 1)->Ok_0;
        let x = nodes[k - 1];
        let head = nodes.subrange(0, k - 1);
        self.lemma_sorted(predicate, bytes, nodes, k - 1);
        self.lemma_place(predicate, bytes, before, x, before.len() as int);
        let j = self.place_spec(predicate, bytes, before, x, before.len() as int)->Ok_0;
        let sorted = before.insert(j, x);
        if b == k - 1 {
            assert(head[a] == nodes[a]);
            assert(head.contains(nodes[a]));
            assert(before.contains(nodes[a]));
            let p = choose|p: int| 0 <= p < before.len() && before[p] == nodes[a];
            if p >= j {
                assert(goes_after(self, predicate, bytes, before[p], x));
            }
            assert(sorted[p] == nodes[a]);
            assert(sorted[j] == nodes[b]);
        } else {
            self.lemma_sorted_stable(predicate, bytes, nodes, k - 1, a, b);
            let (p, q) = choose|p: int, q: int|
                0 <= p < q < before.len() && #[trigger] before[p] == nodes[a]
                    && #[trigger] before[q] == nodes[b];
            let moved_p = if p < j {
                p
            } else {
                p + 1
            };
            let moved_q = if q < j {
                q
            } else {
                q + 1
            };
            assert(sorted[moved_p] == nodes[a]);
            assert(sorted[moved_q] == nodes[b]);
        }
    }
}

} // verus!
