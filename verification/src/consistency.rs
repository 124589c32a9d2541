//! What holds of the sequentializer's state between any two steps, and why
//! the copies it has emitted at its end do what the batch asks.

use crate::batch::{avoids, distinct_destinations, valid_batch};
use crate::machine::{
    is_least_key, least_key, lemma_least_key, lemma_ready_below, register_limit, sequentialization,
    Progress,
};
use crate::register::{Register, RegisterCopy};
use crate::semantics::{
    lemma_writes_push, writes_as,
    lemma_parallel_origin_of_destination, lemma_same_origins_sequentialize,
    lemma_unwritten_keeps_origin, parallel_origin, reads, sequential_origin, sequentializes,
    writes,
};
use vstd::prelude::*;

verus! {

impl Progress {
    /// `copy` is still to be emitted: it is pending or available.
    pub open spec fn waits(self, copy: RegisterCopy) -> bool {
        ||| self.pending.contains_key(copy.destination.0) && self.pending[copy.destination.0]
            == copy
        ||| self.available.contains(copy)
    }

    /// Some copy that is still to be emitted reads the register `source`.
    #[verifier::opaque]
    pub open spec fn needs(self, source: u32) -> bool {
        exists|copy: RegisterCopy| #[trigger] self.waits(copy) && copy.source.0 == source
    }

    /// A copy that is still to be emitted and reads the register `source`,
    /// where there is one.
    pub open spec fn reader(self, source: u32) -> RegisterCopy {
        choose|copy: RegisterCopy| #[trigger] self.waits(copy) && copy.source.0 == source
    }
}

/// A register that is needed has a reader.
pub proof fn lemma_reader(st: Progress, source: u32)
    requires
        st.needs(source),
    ensures
        st.waits(st.reader(source)),
        st.reader(source).source == Register(source),
{
    reveal(Progress::needs);
}

/// What a waiting copy reads is needed.
pub proof fn lemma_needs(st: Progress, copy: RegisterCopy)
    requires
        st.waits(copy),
    ensures
        st.needs(copy.source.0),
{
    reveal(Progress::needs);
}

/// The pending and the available copies are copies of the batch, each in one
/// place only, and the emitted copies write nothing but destinations of the
/// batch and the spare register.
pub open spec fn well_formed(st: Progress, batch: Seq<RegisterCopy>, spare: Register) -> bool {
    &&& st.pending.dom().finite()
    &&& forall|k: u32| #[trigger]
        st.pending.contains_key(k) ==> st.pending[k].destination.0 == k && batch.contains(
            st.pending[k],
        )
    &&& forall|i: int|
        0 <= i < st.available.len() ==> batch.contains(#[trigger] st.available[i])
            && !st.pending.contains_key(st.available[i].destination.0)
    &&& forall|i: int, j: int|
        0 <= i < j < st.available.len() ==> (#[trigger] st.available[i]).destination != (
        #[trigger] st.available[j]).destination
    &&& forall|i: int|
        0 <= i < st.emitted.len() ==> (#[trigger] st.emitted[i]).destination == spare || writes(
            batch,
            st.emitted[i].destination,
        )
}

/// Every value that is still to be copied is where the holder map says, and
/// every copy that is done has brought its value to its destination.
pub open spec fn values_kept(st: Progress, batch: Seq<RegisterCopy>) -> bool {
    &&& forall|c: RegisterCopy| #[trigger]
        st.waits(c) ==> st.holder.contains_key(c.source.0) && sequential_origin(
            st.emitted,
            Register(st.holder[c.source.0]),
        ) == c.source
    &&& forall|c: RegisterCopy|
        batch.contains(c) && !(#[trigger] st.waits(c)) ==> sequential_origin(
            st.emitted,
            c.destination,
        ) == c.source
}

/// No available copy writes a register that holds a value still to be
/// copied; a value held in the destination of a pending copy is that
/// register's own; and the destination of every pending copy is still read.
pub open spec fn nothing_clobbered(st: Progress) -> bool {
    &&& forall|c: RegisterCopy, i: int|
        #[trigger] st.waits(c) && 0 <= i < st.available.len() ==> st.holder[c.source.0] != (
        #[trigger] st.available[i]).destination.0
    &&& forall|c: RegisterCopy| #[trigger]
        st.waits(c) && st.pending.contains_key(st.holder[c.source.0]) ==> st.holder[c.source.0]
            == c.source.0
    &&& forall|k: u32| #[trigger]
        st.pending.contains_key(k) ==> st.needs(k) && st.holder[k] == k
}

/// No value that is still to be copied is held in the spare register.
pub open spec fn spare_free(st: Progress, spare: Register) -> bool {
    forall|c: RegisterCopy| #[trigger] st.waits(c) ==> st.holder[c.source.0] != spare.0
}

/// The machine is walking round a cycle that it broke at the register
/// `evicted`: the copies still to be emitted read different registers, each
/// of them the destination of a pending copy or `evicted`, and only the value
/// of `evicted` can be in the spare register.
pub open spec fn rotating_through(st: Progress, spare: Register, evicted: u32) -> bool {
    &&& !st.pending.contains_key(evicted)
    &&& forall|a: RegisterCopy, b: RegisterCopy|
        #[trigger] st.waits(a) && #[trigger] st.waits(b) && a.source == b.source ==> a == b
    &&& forall|c: RegisterCopy| #[trigger]
        st.waits(c) ==> st.pending.contains_key(c.source.0) || c.source.0 == evicted
    &&& forall|c: RegisterCopy| #[trigger]
        st.waits(c) && st.holder[c.source.0] == spare.0 ==> c.source.0 == evicted
}

/// The machine is walking round a cycle that it broke.
pub open spec fn rotating(st: Progress, spare: Register) -> bool {
    &&& st.available.len() >= 1
    &&& exists|evicted: u32| rotating_through(st, spare, evicted)
}

/// What holds of the state of the sequentializer between any two steps on a
/// valid batch.
pub open spec fn consistent(st: Progress, batch: Seq<RegisterCopy>, spare: Register) -> bool {
    &&& valid_batch(batch, spare)
    &&& well_formed(st, batch, spare)
    &&& values_kept(st, batch)
    &&& nothing_clobbered(st)
    &&& spare_free(st, spare) || rotating(st, spare)
}

/// What a copy of a batch reads and writes, the batch reads and writes.
pub proof fn lemma_member(batch: Seq<RegisterCopy>, spare: Register, copy: RegisterCopy)
    requires
        batch.contains(copy),
    ensures
        reads(batch, copy.source),
        writes(batch, copy.destination),
        avoids(batch, spare) ==> !copy.mentions(spare),
{
    let i = choose|i: int| 0 <= i < batch.len() && batch[i] == copy;
    assert(batch[i].destination == copy.destination);
}

/// After an emit step, the copies that wait are those that waited, but for
/// the one just emitted.
pub proof fn lemma_emit_waits(st: Progress, batch: Seq<RegisterCopy>, spare: Register)
    requires
        well_formed(st, batch, spare),
        st.available.len() > 0,
    ensures
        forall|c: RegisterCopy|
            #![trigger st.emit(spare).waits(c)]
            #![trigger st.waits(c)]
            st.emit(spare).waits(c) <==> st.waits(c) && c != st.available.last(),
        st.waits(st.available.last()),
{
    let next = st.emit(spare);
    let copy = st.available.last();
    let rest = st.available.drop_last();
    let last = st.available.len() - 1;
    let held = st.holder[copy.source.0];
    assert forall|c: RegisterCopy|
        #![trigger next.waits(c)]
        #![trigger st.waits(c)]
        next.waits(c) <==> st.waits(c) && c != copy by {
        if st.waits(c) && c != copy {
            if st.pending.contains_key(c.destination.0) && st.pending[c.destination.0] == c {
                if st.pending.contains_key(held) && c.destination.0 == held {
                    assert(next.available[rest.len() as int] == c);
                }
            } else {
                let i = choose|i: int| 0 <= i < st.available.len() && st.available[i] == c;
                assert(i < last);
                assert(next.available[i] == c);
            }
        }
    }
}

/// A spill step moves a copy from pending to available: the copies that wait
/// are the same.
pub proof fn lemma_spill_waits(st: Progress, batch: Seq<RegisterCopy>, spare: Register)
    requires
        well_formed(st, batch, spare),
        st.pending.len() > 0,
    ensures
        forall|c: RegisterCopy|
            #![trigger st.spill(spare).waits(c)]
            #![trigger st.waits(c)]
            st.spill(spare).waits(c) <==> st.waits(c),
{
    lemma_least_key(st.pending);
    let next = st.spill(spare);
    let least = least_key(st.pending);
    let moved = st.pending[least];
    assert forall|c: RegisterCopy|
        #![trigger next.waits(c)]
        #![trigger st.waits(c)]
        next.waits(c) <==> st.waits(c) by {
        if next.waits(c) {
            if next.pending.contains_key(c.destination.0) && next.pending[c.destination.0] == c {
                assert(st.pending.contains_key(c.destination.0));
            } else {
                let i = choose|i: int| 0 <= i < next.available.len() && next.available[i] == c;
                if i < st.available.len() {
                    assert(st.available[i] == c);
                } else {
                    assert(c == moved);
                }
            }
        }
        if st.waits(c) {
            if st.pending.contains_key(c.destination.0) && st.pending[c.destination.0] == c {
                if c.destination.0 == least {
                    assert(next.available[st.available.len() as int] == c);
                }
            } else {
                let i = choose|i: int| 0 <= i < st.available.len() && st.available[i] == c;
                assert(next.available[i] == c);
            }
        }
    }
}

/// What one more copy at the end does to the sequential origin of a register.
pub proof fn lemma_origin_push(emitted: Seq<RegisterCopy>, copy: RegisterCopy, register: Register)
    ensures
        sequential_origin(emitted.push(copy), register) == if copy.destination == register {
            sequential_origin(emitted, copy.source)
        } else {
            sequential_origin(emitted, register)
        },
{
    assert(emitted.push(copy).drop_last() == emitted);
}

/// The value that the last available copy must read is where the holder map
/// says, and that place is not the copy's own destination.
pub proof fn lemma_emit_reads(st: Progress, batch: Seq<RegisterCopy>, spare: Register)
    requires
        consistent(st, batch, spare),
        st.available.len() > 0,
    ensures
        st.waits(st.available.last()),
        st.holder.contains_key(st.available.last().source.0),
        st.holder[st.available.last().source.0] != st.available.last().destination.0,
        st.pending.contains_key(st.holder[st.available.last().source.0])
            ==> st.holder[st.available.last().source.0] == st.available.last().source.0,
        batch.contains(st.available.last()),
        !st.available.last().mentions(spare),
        !st.pending.contains_key(st.available.last().destination.0),
        !st.pending.contains_key(spare.0),
{
    let last = st.available.len() - 1;
    let copy = st.available.last();
    assert(st.available[last] == copy);
    assert(st.waits(copy));
    lemma_member(batch, spare, copy);
    if st.pending.contains_key(spare.0) {
        lemma_member(batch, spare, st.pending[spare.0]);
    }
}

/// An emit step keeps the state well formed.
pub proof fn lemma_emit_well_formed(st: Progress, batch: Seq<RegisterCopy>, spare: Register)
    requires
        consistent(st, batch, spare),
        st.available.len() > 0,
    ensures
        well_formed(st.emit(spare), batch, spare),
{
    lemma_emit_reads(st, batch, spare);
    let next = st.emit(spare);
    let rest = st.available.drop_last();
    assert forall|i: int, j: int| 0 <= i < j < next.available.len() implies (
    #[trigger] next.available[i]).destination != (#[trigger] next.available[j]).destination by {
        assert(next.available[i] == st.available[i]);
        if j < rest.len() {
            assert(next.available[j] == st.available[j]);
        }
    }
}

/// An emit step keeps every value that is still to be copied, and brings the
/// emitted copy's value to its destination.
pub proof fn lemma_emit_values(st: Progress, batch: Seq<RegisterCopy>, spare: Register)
    requires
        consistent(st, batch, spare),
        st.available.len() > 0,
    ensures
        values_kept(st.emit(spare), batch),
{
    lemma_emit_waits(st, batch, spare);
    let next = st.emit(spare);
    let copy = st.available.last();
    let last = st.available.len() - 1;
    let held = st.holder[copy.source.0];
    let written = RegisterCopy { source: Register(held), destination: copy.destination };
    assert forall|c: RegisterCopy| #[trigger] next.waits(c) implies next.holder.contains_key(
        c.source.0,
    ) && sequential_origin(next.emitted, Register(next.holder[c.source.0])) == c.source by {
        assert(st.waits(c));
        let place = next.holder[c.source.0];
        lemma_origin_push(st.emitted, written, Register(place));
        if c.source.0 == copy.source.0 {
            assert(c.source == copy.source);
        } else {
            assert(st.holder[c.source.0] != st.available[last].destination.0);
        }
    }
    assert forall|c: RegisterCopy| batch.contains(c) && !(#[trigger] next.waits(c)) implies
        sequential_origin(next.emitted, c.destination) == c.source by {
        lemma_origin_push(st.emitted, written, c.destination);
    }
}

/// After an emit step, no available copy writes a register that holds a value
/// still to be copied.
pub proof fn lemma_emit_unclobbered(st: Progress, batch: Seq<RegisterCopy>, spare: Register)
    requires
        consistent(st, batch, spare),
        st.available.len() > 0,
    ensures
        nothing_clobbered(st.emit(spare)),
{
    lemma_emit_waits(st, batch, spare);
    let next = st.emit(spare);
    let copy = st.available.last();
    let rest = st.available.drop_last();
    let last = st.available.len() - 1;
    let held = st.holder[copy.source.0];
    assert forall|c: RegisterCopy, i: int|
        #[trigger] next.waits(c) && 0 <= i < next.available.len() implies next.holder[c.source.0]
        != (#[trigger] next.available[i]).destination.0 by {
        if i < rest.len() {
            assert(st.available[i].destination != st.available[last].destination);
        } else {
            assert(next.available[i] == st.pending[held]);
        }
    }
    assert forall|k: u32| #[trigger] next.pending.contains_key(k) implies next.needs(k)
        && next.holder[k] == k by {
        lemma_reader(st, k);
        let reader = st.reader(k);
        lemma_needs(next, reader);
    }
}

/// After an emit step the spare register is free, or the machine is still
/// walking round a cycle that it broke.
pub proof fn lemma_emit_spare(st: Progress, batch: Seq<RegisterCopy>, spare: Register)
    requires
        consistent(st, batch, spare),
        st.available.len() > 0,
    ensures
        spare_free(st.emit(spare), spare) || rotating(st.emit(spare), spare),
{
    lemma_emit_waits(st, batch, spare);
    let next = st.emit(spare);
    let copy = st.available.last();
    let held = st.holder[copy.source.0];
    if spare_free(st, spare) {
        assert forall|c: RegisterCopy| #[trigger] next.waits(c) implies next.holder[c.source.0]
            != spare.0 by {
        }
    } else {
        let evicted = choose|evicted: u32| rotating_through(st, spare, evicted);
        if st.pending.contains_key(held) {
            assert(rotating_through(next, spare, evicted));
        } else {
            assert(copy.source.0 == evicted);
        }
    }
}

/// An emit step keeps the state consistent.
pub proof fn lemma_emit_consistent(st: Progress, batch: Seq<RegisterCopy>, spare: Register)
    requires
        consistent(st, batch, spare),
        st.available.len() > 0,
    ensures
        consistent(st.emit(spare), batch, spare),
        st.holder.contains_key(st.available.last().source.0),
{
    lemma_emit_reads(st, batch, spare);
    lemma_emit_well_formed(st, batch, spare);
    lemma_emit_values(st, batch, spare);
    lemma_emit_unclobbered(st, batch, spare);
    lemma_emit_spare(st, batch, spare);
}

/// If `back` sends a finite set into itself and `read` undoes `back` there,
/// then `read` sends the set into itself too, and `back` undoes `read`: both
/// are one-to-one on the set.
pub proof fn lemma_inverse_on_finite(
    keys: Set<u32>,
    read: spec_fn(u32) -> u32,
    back: spec_fn(u32) -> u32,
)
    requires
        keys.finite(),
        forall|k: u32| keys.contains(k) ==> keys.contains(#[trigger] back(k)) && read(back(k)) == k,
    ensures
        forall|j: u32| keys.contains(j) ==> keys.contains(#[trigger] read(j)) && back(read(j)) == j,
{
    let image = keys.map(back);
    vstd::set_lib::lemma_map_size(keys, image, back);
    vstd::set_lib::lemma_subset_equality(image, keys);
}

/// When no copy is available, the pending copies form cycles: they read
/// nothing but each other's destinations, and no register twice.
pub proof fn lemma_only_cycles_left(st: Progress, batch: Seq<RegisterCopy>, spare: Register)
    requires
        consistent(st, batch, spare),
        st.available.len() == 0,
    ensures
        forall|j: u32| #[trigger] st.pending.contains_key(j) ==> st.pending.contains_key(
            st.pending[j].source.0,
        ),
        forall|i: u32, j: u32|
            #[trigger] st.pending.contains_key(i) && #[trigger] st.pending.contains_key(j)
                && st.pending[i].source.0 == st.pending[j].source.0 ==> i == j,
        spare_free(st, spare),
{
    let keys = st.pending.dom();
    let read = |j: u32| st.pending[j].source.0;
    let back = |k: u32| st.reader(k).destination.0;
    assert forall|k: u32| keys.contains(k) implies keys.contains(#[trigger] back(k)) && read(
        back(k),
    ) == k by {
        assert(st.pending.contains_key(k));
        lemma_reader(st, k);
    }
    lemma_inverse_on_finite(keys, read, back);
    assert forall|j: u32| #[trigger] st.pending.contains_key(j) implies st.pending.contains_key(
        st.pending[j].source.0,
    ) by {
        assert(keys.contains(j));
        assert(keys.contains(read(j)));
    }
    assert forall|i: u32, j: u32|
        #[trigger] st.pending.contains_key(i) && #[trigger] st.pending.contains_key(j)
            && st.pending[i].source.0 == st.pending[j].source.0 implies i == j by {
        assert(back(read(i)) == i && back(read(j)) == j);
    }
}

/// What a spill step needs to know about the copy that it moves.
pub proof fn lemma_spill_reads(st: Progress, batch: Seq<RegisterCopy>, spare: Register)
    requires
        consistent(st, batch, spare),
        st.available.len() == 0,
        st.pending.len() > 0,
    ensures
        is_least_key(st.pending, least_key(st.pending)),
        st.pending[least_key(st.pending)].destination == Register(least_key(st.pending)),
        batch.contains(st.pending[least_key(st.pending)]),
        !st.pending[least_key(st.pending)].mentions(spare),
        st.waits(st.pending[least_key(st.pending)]),
        !st.pending.contains_key(spare.0),
        st.holder[least_key(st.pending)] == least_key(st.pending),
        sequential_origin(st.emitted, Register(least_key(st.pending))) == Register(
            least_key(st.pending),
        ),
        spare_free(st, spare),
{
    lemma_least_key(st.pending);
    let least = least_key(st.pending);
    let moved = st.pending[least];
    lemma_member(batch, spare, moved);
    lemma_reader(st, least);
}

/// A spill step keeps the state well formed.
pub proof fn lemma_spill_well_formed(st: Progress, batch: Seq<RegisterCopy>, spare: Register)
    requires
        consistent(st, batch, spare),
        st.available.len() == 0,
        st.pending.len() > 0,
    ensures
        well_formed(st.spill(spare), batch, spare),
{
    lemma_spill_reads(st, batch, spare);
    let next = st.spill(spare);
    assert forall|i: int| 0 <= i < next.emitted.len() implies (
    #[trigger] next.emitted[i]).destination == spare || writes(
        batch,
        next.emitted[i].destination,
    ) by {
        if i < st.emitted.len() {
            assert(next.emitted[i] == st.emitted[i]);
        }
    }
}

/// A spill step keeps every value that is still to be copied: the value it
/// evicts is in the spare register afterwards.
pub proof fn lemma_spill_values(st: Progress, batch: Seq<RegisterCopy>, spare: Register)
    requires
        consistent(st, batch, spare),
        st.available.len() == 0,
        st.pending.len() > 0,
    ensures
        values_kept(st.spill(spare), batch),
{
    lemma_spill_reads(st, batch, spare);
    lemma_spill_waits(st, batch, spare);
    let next = st.spill(spare);
    let least = least_key(st.pending);
    let moved = st.pending[least];
    let written = RegisterCopy { source: moved.destination, destination: spare };
    assert forall|c: RegisterCopy| #[trigger] next.waits(c) implies next.holder.contains_key(
        c.source.0,
    ) && sequential_origin(next.emitted, Register(next.holder[c.source.0])) == c.source by {
        assert(st.waits(c));
        lemma_origin_push(st.emitted, written, Register(next.holder[c.source.0]));
        if c.source.0 == least {
            assert(c.source == Register(least));
        }
    }
    assert forall|c: RegisterCopy| batch.contains(c) && !(#[trigger] next.waits(c)) implies
        sequential_origin(next.emitted, c.destination) == c.source by {
        lemma_origin_push(st.emitted, written, c.destination);
    }
}

/// After a spill step, the one available copy writes a register whose value
/// has been saved.
pub proof fn lemma_spill_unclobbered(st: Progress, batch: Seq<RegisterCopy>, spare: Register)
    requires
        consistent(st, batch, spare),
        st.available.len() == 0,
        st.pending.len() > 0,
    ensures
        nothing_clobbered(st.spill(spare)),
{
    lemma_spill_reads(st, batch, spare);
    lemma_spill_waits(st, batch, spare);
    let next = st.spill(spare);
    assert forall|k: u32| #[trigger] next.pending.contains_key(k) implies next.needs(k)
        && next.holder[k] == k by {
        lemma_reader(st, k);
        lemma_needs(next, st.reader(k));
    }
}

/// After a spill step the machine walks round the cycle that it broke.
pub proof fn lemma_spill_rotating(st: Progress, batch: Seq<RegisterCopy>, spare: Register)
    requires
        consistent(st, batch, spare),
        st.available.len() == 0,
        st.pending.len() > 0,
    ensures
        rotating(st.spill(spare), spare),
{
    lemma_spill_reads(st, batch, spare);
    lemma_spill_waits(st, batch, spare);
    lemma_only_cycles_left(st, batch, spare);
    let next = st.spill(spare);
    let least = least_key(st.pending);
    assert forall|a: RegisterCopy, b: RegisterCopy|
        #[trigger] next.waits(a) && #[trigger] next.waits(b) && a.source == b.source implies a
        == b by {
        assert(st.pending.contains_key(a.destination.0));
        assert(st.pending.contains_key(b.destination.0));
    }
    assert(rotating_through(next, spare, least));
}

/// A spill step keeps the state consistent.
pub proof fn lemma_spill_consistent(st: Progress, batch: Seq<RegisterCopy>, spare: Register)
    requires
        consistent(st, batch, spare),
        st.available.len() == 0,
        st.pending.len() > 0,
    ensures
        consistent(st.spill(spare), batch, spare),
{
    lemma_spill_well_formed(st, batch, spare);
    lemma_spill_values(st, batch, spare);
    lemma_spill_unclobbered(st, batch, spare);
    lemma_spill_rotating(st, batch, spare);
}

/// Leaving copies out of a list in which no register is written twice gives
/// such a list again.
pub proof fn lemma_filter_distinct(copies: Seq<RegisterCopy>, keep: spec_fn(RegisterCopy) -> bool)
    requires
        distinct_destinations(copies),
    ensures
        distinct_destinations(copies.filter(keep)),
    decreases copies.len(),
{
    reveal(Seq::filter);
    if copies.len() > 0 {
        let earlier = copies.drop_last();
        let last = copies.last();
        lemma_filter_distinct(earlier, keep);
        let kept = earlier.filter(keep);
        if keep(last) {
            let all = copies.filter(keep);
            assert forall|i: int, j: int| 0 <= i < j < all.len() implies (
            #[trigger] all[i]).destination != (#[trigger] all[j]).destination by {
                assert(all[i] == kept[i]);
                if j < kept.len() {
                    assert(all[j] == kept[j]);
                } else {
                    assert(kept.contains(kept[i]));
                    earlier.lemma_filter_contains_rev(keep, kept[i]);
                    let k = choose|k: int| 0 <= k < earlier.len() && earlier[k] == kept[i];
                    assert(copies[k].destination != copies[copies.len() - 1].destination);
                }
            }
        }
    }
}

/// The pending copies of the start state are finitely many.
pub proof fn lemma_start_finite(batch: Seq<RegisterCopy>)
    ensures
        Progress::start(batch).pending.dom().finite(),
{
    let keys = Progress::start(batch).pending.dom();
    let written = batch.map_values(|c: RegisterCopy| c.destination.0).to_set();
    assert forall|d: u32| keys.contains(d) implies written.contains(d) by {
        let i = choose|i: int|
            0 <= i < batch.len() && (#[trigger] batch[i]).destination == Register(d);
        assert(batch.map_values(|c: RegisterCopy| c.destination.0)[i] == d);
    }
    vstd::set_lib::lemma_len_subset(keys, written);
}

/// The state in which the sequentializer starts on a valid batch is
/// consistent.
pub proof fn lemma_start_consistent(batch: Seq<RegisterCopy>, spare: Register)
    requires
        valid_batch(batch, spare),
    ensures
        consistent(Progress::start(batch), batch, spare),
{
    let st = Progress::start(batch);
    lemma_start_finite(batch);
    lemma_ready_below(batch, register_limit());
    assert forall|i: int| 0 <= i < st.available.len() implies batch.contains(
        #[trigger] st.available[i],
    ) && !st.pending.contains_key(st.available[i].destination.0) by {
        assert(Register(st.available[i].destination.0) == st.available[i].destination);
    }
    lemma_start_written(batch, spare);
    assert forall|c: RegisterCopy| batch.contains(c) implies #[trigger] st.waits(c) by {
        assert(!writes(st.emitted, c.destination));
    }
    assert forall|k: u32| #[trigger] st.pending.contains_key(k) implies st.needs(k)
        && st.holder[k] == k by {
        let i = choose|i: int| 0 <= i < batch.len() && (#[trigger] batch[i]).source == Register(k);
        lemma_needs(st, batch[i]);
    }
}

/// Once no copy waits in a consistent state, running the emitted copies one
/// after another leaves in every register but the spare what running the
/// batch at once leaves there.
pub proof fn lemma_finished(st: Progress, batch: Seq<RegisterCopy>, spare: Register)
    requires
        consistent(st, batch, spare),
        st.available.len() == 0,
        st.pending.len() == 0,
    ensures
        forall|r: Register|
            r != spare ==> #[trigger] sequential_origin(st.emitted, r) == parallel_origin(batch, r),
{
    assert forall|r: Register| r != spare implies #[trigger] sequential_origin(st.emitted, r)
        == parallel_origin(batch, r) by {
        if writes(batch, r) {
            let i = choose|i: int| 0 <= i < batch.len() && (#[trigger] batch[i]).destination == r;
            lemma_parallel_origin_of_destination(batch, i);
            if st.waits(batch[i]) {
                assert(st.pending.dom().len() > 0);
            }
        } else {
            if writes(st.emitted, r) {
                assert(false);
            }
            lemma_unwritten_keeps_origin(st.emitted, r);
            lemma_unwritten_keeps_origin(batch, r);
        }
    }
}

/// Run from a consistent state, the machine emits copies that, run one after
/// another, leave in every register but the spare what running the batch at
/// once leaves there.
pub proof fn lemma_run_equivalent(st: Progress, batch: Seq<RegisterCopy>, spare: Register)
    requires
        consistent(st, batch, spare),
    ensures
        forall|r: Register|
            r != spare ==> #[trigger] sequential_origin(st.run(spare), r) == parallel_origin(
                batch,
                r,
            ),
    decreases st.distance(),
{
    if st.available.len() > 0 {
        lemma_emit_consistent(st, batch, spare);
        lemma_run_equivalent(st.emit(spare), batch, spare);
        assert(st.run(spare) == st.emit(spare).run(spare));
    } else if st.pending.len() > 0 {
        lemma_least_key(st.pending);
        lemma_spill_consistent(st, batch, spare);
        lemma_run_equivalent(st.spill(spare), batch, spare);
        assert(st.run(spare) == st.spill(spare).run(spare));
    } else {
        lemma_finished(st, batch, spare);
    }
}

/// Run one after another, the copies that the sequentializer emits for a
/// valid batch leave in every register but the spare what the batch leaves
/// there when its copies run at once, whatever the registers hold before.
pub proof fn lemma_sequentialization_equivalent(batch: Seq<RegisterCopy>, spare: Register)
    requires
        valid_batch(batch, spare),
    ensures
        sequentializes(sequentialization(batch, spare), batch, spare),
{
    lemma_start_consistent(batch, spare);
    lemma_run_equivalent(Progress::start(batch), batch, spare);
    lemma_same_origins_sequentialize(sequentialization(batch, spare), batch, spare);
}

/// Every copy of the batch waits, or a copy that writes its destination has
/// been emitted.
pub open spec fn all_written(st: Progress, batch: Seq<RegisterCopy>) -> bool {
    forall|c: RegisterCopy|
        batch.contains(c) ==> #[trigger] st.waits(c) || writes(st.emitted, c.destination)
}

/// At the start every copy of the batch waits.
pub proof fn lemma_start_written(batch: Seq<RegisterCopy>, spare: Register)
    requires
        valid_batch(batch, spare),
    ensures
        all_written(Progress::start(batch), batch),
{
    let st = Progress::start(batch);
    lemma_ready_below(batch, register_limit());
    assert forall|c: RegisterCopy| batch.contains(c) implies #[trigger] st.waits(c) by {
        let k = choose|k: int| 0 <= k < batch.len() && batch[k] == c;
        assert(Register(c.destination.0) == c.destination);
        if reads(batch, c.destination) {
            let m = choose|m: int|
                0 <= m < batch.len() && (#[trigger] batch[m]).destination == c.destination;
            if m < k {
                assert(batch[m].destination != batch[k].destination);
            } else if k < m {
                assert(batch[k].destination != batch[m].destination);
            }
        }
    }
}

/// An emit step writes the destination of the copy that stops waiting.
pub proof fn lemma_emit_written(st: Progress, batch: Seq<RegisterCopy>, spare: Register)
    requires
        consistent(st, batch, spare),
        all_written(st, batch),
        st.available.len() > 0,
    ensures
        all_written(st.emit(spare), batch),
{
    lemma_emit_waits(st, batch, spare);
    let next = st.emit(spare);
    let copy = st.available.last();
    let held = st.holder[copy.source.0];
    let written = RegisterCopy { source: Register(held), destination: copy.destination };
    assert(next.emitted == st.emitted.push(written));
    assert forall|c: RegisterCopy| batch.contains(c) implies #[trigger] next.waits(c) || writes(
        next.emitted,
        c.destination,
    ) by {
        lemma_writes_push(st.emitted, written, c.destination);
        assert(st.waits(c) || writes(st.emitted, c.destination));
    }
}

/// After a spill step the same copies wait, and nothing that was written is
/// forgotten.
pub proof fn lemma_spill_written(st: Progress, batch: Seq<RegisterCopy>, spare: Register)
    requires
        consistent(st, batch, spare),
        all_written(st, batch),
        st.available.len() == 0,
        st.pending.len() > 0,
    ensures
        all_written(st.spill(spare), batch),
{
    lemma_spill_waits(st, batch, spare);
    let next = st.spill(spare);
    let least = least_key(st.pending);
    let written = RegisterCopy { source: st.pending[least].destination, destination: spare };
    assert(next.emitted == st.emitted.push(written));
    assert forall|c: RegisterCopy| batch.contains(c) implies #[trigger] next.waits(c) || writes(
        next.emitted,
        c.destination,
    ) by {
        lemma_writes_push(st.emitted, written, c.destination);
        assert(st.waits(c) || writes(st.emitted, c.destination));
    }
}

/// Run from a consistent state, the machine ends with copies that write
/// every register that the batch writes, and besides those no register but
/// the spare.
pub proof fn lemma_run_writes(st: Progress, batch: Seq<RegisterCopy>, spare: Register)
    requires
        consistent(st, batch, spare),
        all_written(st, batch),
    ensures
        writes_as(st.run(spare), batch, spare),
    decreases st.distance(),
{
    if st.available.len() > 0 {
        lemma_emit_consistent(st, batch, spare);
        lemma_emit_written(st, batch, spare);
        lemma_run_writes(st.emit(spare), batch, spare);
        assert(st.run(spare) == st.emit(spare).run(spare));
    } else if st.pending.len() > 0 {
        lemma_least_key(st.pending);
        lemma_spill_consistent(st, batch, spare);
        lemma_spill_written(st, batch, spare);
        lemma_run_writes(st.spill(spare), batch, spare);
        assert(st.run(spare) == st.spill(spare).run(spare));
    } else {
        assert(st.run(spare) == st.emitted);
        assert forall|r: Register| #[trigger] writes(batch, r) implies writes(st.emitted, r) by {
            let i = choose|i: int| 0 <= i < batch.len() && (#[trigger] batch[i]).destination == r;
            assert(batch.contains(batch[i]));
            if st.waits(batch[i]) {
                assert(st.pending.dom().contains(batch[i].destination.0));
                assert(st.pending.dom().len() > 0);
            }
        }
    }
}

/// The copies that the sequentializer emits for a valid batch write every
/// register that the batch writes, and besides those no register but the
/// spare.
pub proof fn lemma_sequentialization_writes(batch: Seq<RegisterCopy>, spare: Register)
    requires
        valid_batch(batch, spare),
    ensures
        writes_as(sequentialization(batch, spare), batch, spare),
{
    lemma_start_consistent(batch, spare);
    lemma_start_written(batch, spare);
    lemma_run_writes(Progress::start(batch), batch, spare);
}

} // verus!
