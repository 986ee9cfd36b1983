//! Stores that are followed by a refresh: after each store to memory, the
//! structure that owns the stored field is read again from where it lies.
use vstd::prelude::*;

use crate::error::Error;
use crate::mem::{
    covered, in_window, lemma_load_outside, lemma_read_after_write, lemma_written_covered, load,
    Memory, Pointer, same_bytes, store, write_at, written,
};
use crate::traits::Updatable;

verus! {

/// What storing the `A` of view `value` at `address`, and then reading the `B`
/// at `this` again, gives: the bytes afterwards and the `B` that was read.
pub open spec fn refreshed<A: Updatable, B: Updatable>(
    bytes: Map<int, u8>,
    address: u64,
    value: A::V,
    this: u64,
) -> Result<(Map<int, u8>, B::V), Error> {
    match store::<A>(bytes, address, value) {
        Err(e) => Err(e),
        Ok(after) => match load::<B>(after, this) {
            Err(e) => Err(e),
            Ok(owner) => Ok((after, owner)),
        },
    }
}

/// Stores `value` at `address` and then refreshes `owner` from `this`.
pub fn write_refresh<A: Updatable, B: Updatable>(
    memory: &mut Memory,
    address: u64,
    value: A,
    owner: &mut B,
    this: &Pointer<B>,
) -> (r: Result<(), Error>)
    ensures
        final(memory).wf(),
        match r {
            Ok(()) => refreshed::<A, B>(old(memory).bytes(), address, value@, this.address) == Ok::<
                (Map<int, u8>, B::V),
                Error,
            >((final(memory).bytes(), final(owner)@)),
            Err(e) => refreshed::<A, B>(old(memory).bytes(), address, value@, this.address) == Err::<
                (Map<int, u8>, B::V),
                Error,
            >(e),
        },
{
    match memory.write(address, Box::new(value)) {
        Err(e) => Err(e),
        Ok(()) => owner.update(memory, this),
    }
}

/// What a run of stores gives, each followed by reading the `B` at `this`
/// again: the bytes afterwards and the `B` that was read last, or the first
/// failure. A store is the address and the bytes to store there.
pub open spec fn run<B: Updatable>(
    bytes: Map<int, u8>,
    owner: B::V,
    this: u64,
    script: Seq<(u64, Seq<u8>)>,
) -> Result<(Map<int, u8>, B::V), Error>
    decreases script.len(),
{
    if script.len() == 0 {
        Ok((bytes, owner))
    } else {
        match write_at(bytes, script[0].0, script[0].1) {
            Err(e) => Err(e),
            Ok(after) => match load::<B>(after, this) {
                Err(e) => Err(e),
                Ok(fresh) => run::<B>(after, fresh, this, script.drop_first()),
            },
        }
    }
}

/// One store of a run has been made: what is left of the run gives what the
/// whole run gives.
pub proof fn lemma_run_step<A: Updatable, B: Updatable>(
    bytes: Map<int, u8>,
    owner: B::V,
    this: u64,
    script: Seq<(u64, Seq<u8>)>,
    k: int,
    address: u64,
    value: A::V,
)
    requires
        0 <= k < script.len(),
        script[k] == (address, A::encode(value)),
    ensures
        run::<B>(bytes, owner, this, script.subrange(k, script.len() as int)) == match refreshed::<
            A,
            B,
        >(bytes, address, value, this) {
            Err(e) => Err(e),
            Ok((after, fresh)) => run::<B>(
                after,
                fresh,
                this,
                script.subrange(k + 1, script.len() as int),
            ),
        },
{
    let rest = script.subrange(k, script.len() as int);
    assert(rest[0] == script[k]);
    assert(rest.drop_first() =~= script.subrange(k + 1, script.len() as int));
}

/// The stores that a list of addresses and byte vectors stands for.
pub open spec fn stores_of(script: Seq<(u64, Vec<u8>)>) -> Seq<(u64, Seq<u8>)> {
    Seq::new(script.len(), |i: int| (script[i].0, script[i].1@))
}

/// A list of stores that holds none yet.
pub fn new_script() -> (script: Vec<(u64, Vec<u8>)>)
    ensures
        stores_of(script@) == Seq::<(u64, Seq<u8>)>::empty(),
{
    let script: Vec<(u64, Vec<u8>)> = Vec::new();
    assert(stores_of(script@) =~= Seq::<(u64, Seq<u8>)>::empty());
    script
}

/// Adds to `script` the store of `value` at `address`.
pub fn push_store<A: Updatable>(script: &mut Vec<(u64, Vec<u8>)>, address: u64, value: &A)
    ensures
        stores_of(final(script)@) == stores_of(old(script)@).push((address, A::encode(value@))),
{
    let ghost before = script@;
    script.push((address, value.to_bytes()));
    assert(stores_of(script@) =~= stores_of(before).push((address, A::encode(value@))));
}

/// Makes the stores of `script`, one after the other, and refreshes `owner`
/// from `this` after each. Stops at the first store or refresh that fails.
pub fn run_stores<B: Updatable>(
    memory: &mut Memory,
    owner: &mut B,
    this: &Pointer<B>,
    script: &Vec<(u64, Vec<u8>)>,
) -> (r: Result<(), Error>)
    ensures
        final(memory).wf(),
        match r {
            Ok(()) => run::<B>(old(memory).bytes(), old(owner)@, this.address, stores_of(script@))
                == Ok::<(Map<int, u8>, B::V), Error>((final(memory).bytes(), final(owner)@)),
            Err(e) => run::<B>(old(memory).bytes(), old(owner)@, this.address, stores_of(script@))
                == Err::<(Map<int, u8>, B::V), Error>(e),
        },
{
    proof {
        use_type_invariant(&*memory);
    }
    let ghost all = stores_of(script@);
    let ghost len = all.len() as int;
    assert(all.subrange(0, len) =~= all);
    let mut i: usize = 0;
    while i < script.len()
        invariant
            0 <= i <= script.len(),
            memory.wf(),
            all == stores_of(script@),
            len == script.len(),
            run::<B>(old(memory).bytes(), old(owner)@, this.address, all) == run::<B>(
                memory.bytes(),
                owner@,
                this.address,
                all.subrange(i as int, len),
            ),
        decreases script.len() - i,
    {
        let ghost rest = all.subrange(i as int, len);
        assert(rest[0] == all[i as int]);
        assert(rest.drop_first() =~= all.subrange(i + 1, len));
        if let Err(e) = memory.write_bytes(script[i].0, script[i].1.as_slice()) {
            return Err(e);
        }
        if let Err(e) = owner.update(memory, this) {
            return Err(e);
        }
        i += 1;
    }
    Ok(())
}

/// The bytes after the stores of `script` have been made, one after the
/// other.
pub open spec fn applied(bytes: Map<int, u8>, script: Seq<(u64, Seq<u8>)>) -> Map<int, u8>
    decreases script.len(),
{
    if script.len() == 0 {
        bytes
    } else {
        applied(written(bytes, script[0].0 as int, script[0].1), script.drop_first())
    }
}

/// Every store of `script` lies inside the valid window.
pub open spec fn stores_in_window(script: Seq<(u64, Seq<u8>)>) -> bool {
    forall|k: int|
        0 <= k < script.len() ==> in_window((#[trigger] script[k]).0 as int, script[k].1.len() as int)
            && script[k].1.len() <= usize::MAX
}

/// No store of `script` from position `from` on touches the `len` bytes at
/// `address`.
pub open spec fn stores_apart(script: Seq<(u64, Seq<u8>)>, from: int, address: int, len: int) -> bool {
    forall|k: int|
        from <= k < script.len() ==> address + len <= (#[trigger] script[k]).0 || script[k].0
            + script[k].1.len() <= address
}

/// A run of stores inside the valid window, made while the owner is stored,
/// succeeds, and leaves the bytes that the stores leave.
pub proof fn lemma_run_ok<B: Updatable>(
    bytes: Map<int, u8>,
    owner: B::V,
    this: u64,
    script: Seq<(u64, Seq<u8>)>,
)
    requires
        stores_in_window(script),
        in_window(this as int, B::layout_size() as int),
        covered(bytes, this as int, B::layout_size() as int),
    ensures
        covered(applied(bytes, script), this as int, B::layout_size() as int),
        load::<B>(applied(bytes, script), this) is Ok,
        run::<B>(bytes, owner, this, script) == Ok::<(Map<int, u8>, B::V), Error>(
            (
                applied(bytes, script),
                if script.len() == 0 {
                    owner
                } else {
                    load::<B>(applied(bytes, script), this)->Ok_0
                },
            ),
        ),
    decreases script.len(),
{
    if script.len() > 0 {
        let after = written(bytes, script[0].0 as int, script[0].1);
        let rest = script.drop_first();
        assert(in_window(script[0].0 as int, script[0].1.len() as int));
        lemma_written_covered(
            bytes,
            script[0].0 as int,
            script[0].1,
            this as int,
            B::layout_size() as int,
        );
        assert forall|k: int| 0 <= k < rest.len() implies in_window(
            (#[trigger] rest[k]).0 as int,
            rest[k].1.len() as int,
        ) && rest[k].1.len() <= usize::MAX by {
            assert(rest[k] == script[k + 1]);
        }
        let fresh = load::<B>(after, this)->Ok_0;
        lemma_run_ok::<B>(after, fresh, this, rest);
        if rest.len() == 0 {
            assert(applied(after, rest) == after);
        }
    }
}

/// A value that no store of a run touches is after the run what it was
/// before.
pub proof fn lemma_applied_outside<A: Updatable>(
    bytes: Map<int, u8>,
    script: Seq<(u64, Seq<u8>)>,
    address: u64,
)
    requires
        stores_apart(script, 0, address as int, A::layout_size() as int),
    ensures
        load::<A>(applied(bytes, script), address) == load::<A>(bytes, address),
    decreases script.len(),
{
    if script.len() > 0 {
        let after = written(bytes, script[0].0 as int, script[0].1);
        let rest = script.drop_first();
        assert(script[0].0 + script[0].1.len() <= address || address + A::layout_size()
            <= script[0].0);
        lemma_load_outside::<A>(bytes, script[0].0 as int, script[0].1, address);
        assert forall|k: int| 0 <= k < rest.len() implies address + A::layout_size() <= (
        #[trigger] rest[k]).0 || rest[k].0 + rest[k].1.len() <= address by {
            assert(rest[k] == script[k + 1]);
        }
        lemma_applied_outside::<A>(after, rest, address);
    }
}

/// A value that one store of a run stores, and no later store touches, is
/// what lies at its place after the run.
pub proof fn lemma_applied_stored<A: Updatable>(
    bytes: Map<int, u8>,
    script: Seq<(u64, Seq<u8>)>,
    k: int,
    address: u64,
    value: A::V,
)
    requires
        0 <= k < script.len(),
        script[k] == (address, A::encode(value)),
        A::representable(value),
        in_window(address as int, A::layout_size() as int),
        stores_apart(script, k + 1, address as int, A::layout_size() as int),
    ensures
        load::<A>(applied(bytes, script), address) == Ok::<A::V, Error>(value),
    decreases script.len(),
{
    let after = written(bytes, script[0].0 as int, script[0].1);
    let rest = script.drop_first();
    if k == 0 {
        lemma_read_after_write::<A>(bytes, address, value);
        assert forall|j: int| 0 <= j < rest.len() implies address + A::layout_size() <= (
        #[trigger] rest[j]).0 || rest[j].0 + rest[j].1.len() <= address by {
            assert(rest[j] == script[j + 1]);
        }
        lemma_applied_outside::<A>(after, rest, address);
    } else {
        assert(rest[k - 1] == script[k]);
        assert forall|j: int| k <= j < rest.len() implies address + A::layout_size() <= (
        #[trigger] rest[j]).0 || rest[j].0 + rest[j].1.len() <= address by {
            assert(rest[j] == script[j + 1]);
        }
        lemma_applied_stored::<A>(after, rest, k - 1, address, value);
    }
}

/// A run of stores to bytes that are stored leaves stored what was stored
/// and nothing else, and changes no byte that none of its stores touches.
pub proof fn lemma_applied_frame(bytes: Map<int, u8>, script: Seq<(u64, Seq<u8>)>)
    requires
        forall|k: int|
            0 <= k < script.len() ==> covered(
                bytes,
                (#[trigger] script[k]).0 as int,
                script[k].1.len() as int,
            ),
    ensures
        forall|a: int| applied(bytes, script).contains_key(a) == bytes.contains_key(a),
        forall|a: int|
            bytes.contains_key(a) && stores_apart(script, 0, a, 1) ==> #[trigger] applied(
                bytes,
                script,
            )[a] == bytes[a],
    decreases script.len(),
{
    if script.len() > 0 {
        let after = written(bytes, script[0].0 as int, script[0].1);
        let rest = script.drop_first();
        assert(covered(bytes, script[0].0 as int, script[0].1.len() as int));
        assert forall|a: int| after.contains_key(a) == bytes.contains_key(a) by {}
        assert forall|k: int| 0 <= k < rest.len() implies covered(
            after,
            (#[trigger] rest[k]).0 as int,
            rest[k].1.len() as int,
        ) by {
            assert(rest[k] == script[k + 1]);
            lemma_written_covered(
                bytes,
                script[0].0 as int,
                script[0].1,
                rest[k].0 as int,
                rest[k].1.len() as int,
            );
        }
        lemma_applied_frame(after, rest);
        assert forall|a: int| bytes.contains_key(a) && stores_apart(script, 0, a, 1) implies applied(
            bytes,
            script,
        )[a] == bytes[a] by {
            assert(script[0].0 + script[0].1.len() <= a || a + 1 <= script[0].0);
            assert forall|k: int| 0 <= k < rest.len() implies a + 1 <= (#[trigger] rest[k]).0
                || rest[k].0 + rest[k].1.len() <= a by {
                assert(rest[k] == script[k + 1]);
            }
            assert(stores_apart(rest, 0, a, 1));
            assert(after.contains_key(a));
            assert(applied(after, rest)[a] == after[a]);
            assert(after[a] == bytes[a]);
        }
    }
}

/// The bytes after a run of stores to bytes that are stored, none of which
/// touches some places, are the same bytes in these places.
pub proof fn lemma_applied_same(bytes: Map<int, u8>, script: Seq<(u64, Seq<u8>)>, other: int, len: int)
    requires
        forall|k: int|
            0 <= k < script.len() ==> covered(
                bytes,
                (#[trigger] script[k]).0 as int,
                script[k].1.len() as int,
            ),
        stores_apart(script, 0, other, len),
    ensures
        same_bytes(bytes, applied(bytes, script), other, len),
{
    lemma_applied_frame(bytes, script);
    let after = applied(bytes, script);
    assert forall|a: int|
        #![trigger after.contains_key(a)]
        #![trigger bytes.contains_key(a)]
        other <= a < other + len implies after.contains_key(a) == bytes.contains_key(a) && (
    bytes.contains_key(a) ==> after[a] == bytes[a]) by {
        if bytes.contains_key(a) {
            assert forall|k: int| 0 <= k < script.len() implies a + 1 <= (#[trigger] script[k]).0
                || script[k].0 + script[k].1.len() <= a by {
                assert(other + len <= script[k].0 || script[k].0 + script[k].1.len() <= other);
            }
            assert(stores_apart(script, 0, a, 1));
        }
    }
}

} // verus!
