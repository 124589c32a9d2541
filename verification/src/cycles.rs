//! The cycles of a batch: registers whose values rotate, so that none of
//! their copies can run first without a place to save a value.

use crate::register::{Register, RegisterCopy};
use crate::semantics::{lemma_unwritten_keeps_origin, parallel_origin, writes};
use vstd::prelude::*;

verus! {

/// The register whose initial value `register` holds after the batch has run
/// at once `rounds` times.
pub open spec fn origin_after(batch: Seq<RegisterCopy>, register: Register, rounds: nat) -> Register
    decreases rounds,
{
    if rounds == 0 {
        register
    } else {
        parallel_origin(batch, origin_after(batch, register, (rounds - 1) as nat))
    }
}

/// `register` is on a cycle of the batch: the batch writes it, and run at
/// once often enough brings its initial value back to it.
pub open spec fn on_cycle(batch: Seq<RegisterCopy>, register: Register) -> bool {
    &&& writes(batch, register)
    &&& exists|rounds: nat|
        rounds > 0 && #[trigger] origin_after(batch, register, rounds) == register
}

/// `register` is the least register of a cycle of the batch.
pub open spec fn leads_cycle(batch: Seq<RegisterCopy>, register: Register) -> bool {
    &&& on_cycle(batch, register)
    &&& forall|rounds: nat| (#[trigger] origin_after(batch, register, rounds)).0 >= register.0
}

/// The least registers of the cycles of the batch, one for each cycle.
pub open spec fn cycle_leaders(batch: Seq<RegisterCopy>) -> Set<Register> {
    Set::new(|register: Register| leads_cycle(batch, register))
}

/// The number of cycles of the batch.
pub open spec fn cycle_count(batch: Seq<RegisterCopy>) -> nat {
    cycle_leaders(batch).len()
}

/// A batch has finitely many cycles, no more than it has copies.
pub proof fn lemma_cycles_finite(batch: Seq<RegisterCopy>)
    ensures
        cycle_leaders(batch).finite(),
        cycle_count(batch) <= batch.len(),
{
    let destinations = batch.map_values(|c: RegisterCopy| c.destination);
    let written = destinations.to_set();
    assert forall|r: Register| cycle_leaders(batch).contains(r) implies written.contains(r) by {
        let i = choose|i: int| 0 <= i < batch.len() && (#[trigger] batch[i]).destination == r;
        assert(destinations[i] == r);
    }
    vstd::set_lib::lemma_len_subset(cycle_leaders(batch), written);
    destinations.lemma_cardinality_of_set();
}

/// Going back `more` rounds after `some` rounds is going back `some + more`
/// rounds.
pub proof fn lemma_origin_after_add(
    batch: Seq<RegisterCopy>,
    register: Register,
    some: nat,
    more: nat,
)
    ensures
        origin_after(batch, register, some + more) == origin_after(
            batch,
            origin_after(batch, register, some),
            more,
        ),
    decreases more,
{
    if more > 0 {
        lemma_origin_after_add(batch, register, some, (more - 1) as nat);
        assert(origin_after(batch, register, some + more) == parallel_origin(
            batch,
            origin_after(batch, register, (some + more - 1) as nat),
        ));
    }
}

/// From a register that the batch does not write, going back leads nowhere
/// else.
pub proof fn lemma_unwritten_stays(batch: Seq<RegisterCopy>, register: Register, rounds: nat)
    requires
        !writes(batch, register),
    ensures
        origin_after(batch, register, rounds) == register,
    decreases rounds,
{
    if rounds > 0 {
        lemma_unwritten_stays(batch, register, (rounds - 1) as nat);
        lemma_unwritten_keeps_origin(batch, register);
    }
}

/// Going back from a register on a cycle leads to registers that the batch
/// writes.
pub proof fn lemma_cycle_is_written(
    batch: Seq<RegisterCopy>,
    register: Register,
    period: nat,
    rounds: nat,
)
    requires
        writes(batch, register),
        period > 0,
        origin_after(batch, register, period) == register,
    ensures
        writes(batch, origin_after(batch, register, rounds)),
    decreases rounds,
{
    if rounds > period {
        lemma_cycle_is_written(batch, register, period, (rounds - period) as nat);
        lemma_origin_after_add(batch, register, period, (rounds - period) as nat);
    } else {
        let reached = origin_after(batch, register, rounds);
        if !writes(batch, reached) {
            lemma_origin_after_add(batch, register, rounds, (period - rounds) as nat);
            lemma_unwritten_stays(batch, reached, (period - rounds) as nat);
        }
    }
}

/// Going back `rounds` rounds from `register` leads to the least of the
/// registers to which going back from it leads at all.
pub open spec fn least_on_the_way(
    batch: Seq<RegisterCopy>,
    register: Register,
    rounds: nat,
) -> bool {
    forall|other: nat|
        (#[trigger] origin_after(batch, register, other)).0 >= origin_after(
            batch,
            register,
            rounds,
        ).0
}

/// Of the registers to which going back from a register leads, one is the
/// least.
pub proof fn lemma_least_on_the_way(batch: Seq<RegisterCopy>, register: Register, rounds: nat)
    ensures
        exists|least: nat| least_on_the_way(batch, register, least),
    decreases origin_after(batch, register, rounds).0,
{
    let here = origin_after(batch, register, rounds).0;
    if exists|lower: nat| (#[trigger] origin_after(batch, register, lower)).0 < here {
        let lower = choose|lower: nat| (#[trigger] origin_after(batch, register, lower)).0 < here;
        lemma_least_on_the_way(batch, register, lower);
    } else {
        assert(least_on_the_way(batch, register, rounds));
    }
}

/// Every cycle is counted: going back from a register on a cycle leads to
/// the least register of that cycle.
pub proof fn lemma_cycle_has_leader(batch: Seq<RegisterCopy>, register: Register)
    requires
        on_cycle(batch, register),
    ensures
        exists|rounds: nat| leads_cycle(batch, #[trigger] origin_after(batch, register, rounds)),
        cycle_count(batch) >= 1,
{
    let period = choose|rounds: nat|
        rounds > 0 && #[trigger] origin_after(batch, register, rounds) == register;
    lemma_least_on_the_way(batch, register, 0);
    let least = choose|least: nat| least_on_the_way(batch, register, least);
    let leader = origin_after(batch, register, least);
    lemma_cycle_is_written(batch, register, period, least);
    assert(origin_after(batch, leader, period) == leader) by {
        lemma_origin_after_add(batch, register, least, period);
        lemma_origin_after_add(batch, register, period, least);
    }
    assert forall|rounds: nat| (#[trigger] origin_after(batch, leader, rounds)).0
        >= leader.0 by {
        lemma_origin_after_add(batch, register, least, rounds);
        assert(origin_after(batch, register, least + rounds).0 >= leader.0);
    }
    assert(leads_cycle(batch, leader));
    lemma_cycles_finite(batch);
    assert(cycle_leaders(batch).contains(leader));
    if cycle_count(batch) == 0 {
        assert(cycle_leaders(batch) =~= Set::empty());
    }
}

/// A batch in which no register is on a cycle has no cycle.
pub proof fn lemma_no_cycle(batch: Seq<RegisterCopy>)
    requires
        forall|register: Register| !on_cycle(batch, register),
    ensures
        cycle_count(batch) == 0,
{
    assert(cycle_leaders(batch) =~= Set::empty());
}

/// `step` applied `rounds` times to `start`.
pub open spec fn iterate(step: spec_fn(u32) -> u32, start: u32, rounds: nat) -> u32
    decreases rounds,
{
    if rounds == 0 {
        start
    } else {
        step(iterate(step, start, (rounds - 1) as nat))
    }
}

/// A step that sends a set into itself never leaves it.
pub proof fn lemma_iterate_stays(
    keys: Set<u32>,
    step: spec_fn(u32) -> u32,
    start: u32,
    rounds: nat,
)
    requires
        keys.contains(start),
        forall|j: u32| keys.contains(j) ==> keys.contains(#[trigger] step(j)),
    ensures
        keys.contains(iterate(step, start, rounds)),
    decreases rounds,
{
    if rounds > 0 {
        lemma_iterate_stays(keys, step, start, (rounds - 1) as nat);
    }
}

/// Where a step sends no two members of a set to one, two rounds that meet
/// have met all along: if they differ by `gap` rounds, the start comes back
/// after `gap` rounds.
pub proof fn lemma_iterate_meets(
    keys: Set<u32>,
    step: spec_fn(u32) -> u32,
    start: u32,
    rounds: nat,
    gap: nat,
)
    requires
        keys.contains(start),
        forall|j: u32| keys.contains(j) ==> keys.contains(#[trigger] step(j)),
        forall|a: u32, b: u32|
            keys.contains(a) && keys.contains(b) && #[trigger] step(a) == #[trigger] step(b) ==> a
                == b,
        iterate(step, start, rounds) == iterate(step, start, rounds + gap),
    ensures
        iterate(step, start, gap) == start,
    decreases rounds,
{
    if rounds > 0 {
        let earlier = (rounds - 1) as nat;
        lemma_iterate_stays(keys, step, start, earlier);
        lemma_iterate_stays(keys, step, start, earlier + gap);
        lemma_iterate_meets(keys, step, start, earlier, gap);
    }
}

/// A step that sends a finite set into itself, and no two members of it to
/// one, brings every member of the set back to itself.
pub proof fn lemma_iterate_returns(keys: Set<u32>, step: spec_fn(u32) -> u32, start: u32)
    requires
        keys.finite(),
        keys.contains(start),
        forall|j: u32| keys.contains(j) ==> keys.contains(#[trigger] step(j)),
        forall|a: u32, b: u32|
            keys.contains(a) && keys.contains(b) && #[trigger] step(a) == #[trigger] step(b) ==> a
                == b,
    ensures
        exists|rounds: nat| rounds > 0 && #[trigger] iterate(step, start, rounds) == start,
{
    let orbit = Seq::new(keys.len() + 1, |n: int| iterate(step, start, n as nat));
    if orbit.no_duplicates() {
        orbit.unique_seq_to_set();
        assert forall|k: u32| orbit.to_set().contains(k) implies keys.contains(k) by {
            let n = choose|n: int| 0 <= n < orbit.len() && orbit[n] == k;
            lemma_iterate_stays(keys, step, start, n as nat);
        }
        vstd::set_lib::lemma_len_subset(orbit.to_set(), keys);
    }
    let (i, j) = choose|i: int, j: int|
        0 <= i < orbit.len() && 0 <= j < orbit.len() && i != j && orbit[i] == orbit[j];
    if i < j {
        lemma_iterate_meets(keys, step, start, i as nat, (j - i) as nat);
    } else {
        lemma_iterate_meets(keys, step, start, j as nat, (i - j) as nat);
    }
}

} // verus!
