//! The sequentializer: turns a batch of copies that are meant to run at once
//! into a list of copies that can run one after another.

use crate::batch::{
    first_offence, repeats_a_destination, uses_spare, valid_batch, validate_batch, BatchError,
};
use crate::bound::lemma_sequentialization_bounded;
use crate::consistency::{
    consistent, lemma_emit_consistent, lemma_sequentialization_equivalent,
    lemma_sequentialization_writes, lemma_spill_consistent, lemma_start_consistent,
};
use crate::cycles::cycle_count;
use crate::least::least_entry;
use crate::machine::{
    lemma_ready_below_skip, lemma_writer_is, ready_below, ready_destination, register_limit,
    sequentialization, writer, Progress,
};
use crate::order::lemma_order_is_immaterial;
use crate::register::{Register, RegisterCopy};
use crate::semantics::{
    lemma_reads_push, lemma_writes_push, reads, sequentializes, writes, writes_as,
};
use std::collections::{BTreeMap, HashMap};
use vstd::prelude::*;

verus! {

/// Turns the batch `parallel_copies`, whose copies all read their sources
/// before any of them writes, into a list of copies that does the same when
/// they run one after another. The list writes `spare` where it has to break
/// a cycle, and no other register that the batch does not write. It holds
/// one copy for each copy of the batch, and for each cycle of the batch at
/// most one more. It is the same list in whatever order the batch holds its
/// copies.
pub fn sequentialize_register(parallel_copies: &[RegisterCopy], spare: Register) -> (sequentialized:
    Vec<RegisterCopy>)
    requires
        valid_batch(parallel_copies@, spare),
    ensures
        sequentialized@ == sequentialization(parallel_copies@, spare),
        forall|other: Seq<RegisterCopy>|
            valid_batch(other, spare) && other.to_set() == parallel_copies@.to_set()
                ==> sequentialized@ == #[trigger] sequentialization(other, spare),
        sequentializes(sequentialized@, parallel_copies@, spare),
        writes_as(sequentialized@, parallel_copies@, spare),
        parallel_copies.len() <= sequentialized.len() <= parallel_copies.len() + cycle_count(
            parallel_copies@,
        ),
{
    let ghost batch = parallel_copies@;
    let mut sequentialized: Vec<RegisterCopy> = Vec::new();
    // For the number of each source, the number of the register that holds
    // its initial value now.
    let mut current_holder: HashMap<u32, u32> = HashMap::new();
    // The copies that wait, by the number of their destination; ordered, so
    // that the copy with which a cycle is broken is always the same.
    let mut pending: BTreeMap<u32, RegisterCopy> = BTreeMap::new();
    // The copies that can be emitted: nothing reads their destination.
    let mut available: Vec<RegisterCopy> = Vec::new();

    let mut i: usize = 0;
    while i < parallel_copies.len()
        invariant
            i <= parallel_copies.len(),
            batch == parallel_copies@,
            forall|d: u32| pending@.contains_key(d) <==> writes(batch.take(i as int), Register(d)),
            forall|d: u32| #[trigger]
                pending@.contains_key(d) ==> pending@[d].destination == Register(d)
                    && batch.contains(pending@[d]),
            forall|s: u32|
                current_holder@.contains_key(s) <==> reads(batch.take(i as int), Register(s)),
            forall|s: u32| #[trigger] current_holder@.contains_key(s) ==> current_holder@[s] == s,
        decreases parallel_copies.len() - i,
    {
        let copy = parallel_copies[i];
        proof {
            assert(batch.take(i + 1) == batch.take(i as int).push(copy));
            assert forall|d: u32|
                pending@.insert(copy.destination.0, copy).contains_key(d) <==> writes(
                    batch.take(i + 1),
                    Register(d),
                ) by {
                lemma_writes_push(batch.take(i as int), copy, Register(d));
            }
            assert forall|s: u32|
                current_holder@.insert(copy.source.0, copy.source.0).contains_key(s) <==> reads(
                    batch.take(i + 1),
                    Register(s),
                ) by {
                lemma_reads_push(batch.take(i as int), copy, Register(s));
            }
        }
        pending.insert(copy.destination.0, copy);
        current_holder.insert(copy.source.0, copy.source.0);
        i += 1;
    }
    proof {
        assert(batch.take(i as int) == batch);
    }

    // The copies that nothing blocks, by the number of their destination.
    let mut unblocked: BTreeMap<u32, RegisterCopy> = BTreeMap::new();
    let mut i: usize = 0;
    while i < parallel_copies.len()
        invariant
            i <= parallel_copies.len(),
            batch == parallel_copies@,
            current_holder@ == Progress::start(batch).holder,
            forall|d: u32|
                pending@.contains_key(d) <==> writes(batch, Register(d)) && (reads(
                    batch,
                    Register(d),
                ) || !writes(batch.take(i as int), Register(d))),
            forall|d: u32| #[trigger]
                pending@.contains_key(d) ==> pending@[d].destination == Register(d)
                    && batch.contains(pending@[d]),
            forall|d: u32|
                unblocked@.contains_key(d) <==> writes(batch.take(i as int), Register(d))
                    && !reads(batch, Register(d)),
            forall|d: u32| #[trigger]
                unblocked@.contains_key(d) ==> unblocked@[d].destination == Register(d)
                    && batch.contains(unblocked@[d]),
        decreases parallel_copies.len() - i,
    {
        let copy = parallel_copies[i];
        proof {
            assert(batch.take(i + 1) == batch.take(i as int).push(copy));
            assert(batch.contains(copy));
            assert(Register(copy.destination.0) == copy.destination);
            assert forall|d: u32|
                writes(batch.take(i + 1), Register(d)) <==> writes(
                    batch.take(i as int),
                    Register(d),
                ) || d == copy.destination.0 by {
                lemma_writes_push(batch.take(i as int), copy, Register(d));
            }
        }
        // What no copy reads holds no value that must be kept.
        if !current_holder.contains_key(&copy.destination.0) {
            pending.remove(&copy.destination.0);
            unblocked.insert(copy.destination.0, copy);
        }
        i += 1;
    }
    proof {
        assert(batch.take(i as int) == batch);
        assert forall|d: u32| #[trigger] pending@.contains_key(d) implies pending@[d] == writer(
            batch,
            Register(d),
        ) by {
            lemma_writer_is(batch, pending@[d]);
        }
        assert forall|d: u32| #[trigger] unblocked@.contains_key(d) implies unblocked@[d]
            == writer(batch, Register(d)) by {
            lemma_writer_is(batch, unblocked@[d]);
        }
    }

    // They become available in the order of their destinations, whatever
    // the order of the batch: the one with the greatest destination is
    // emitted first.
    let ghost mut bound: nat = 0;
    loop
        invariant
            bound <= register_limit(),
            available@ == ready_below(batch, bound),
            forall|d: u32|
                unblocked@.contains_key(d) <==> ready_destination(batch, Register(d)) && d
                    >= bound,
            forall|d: u32| #[trigger]
                unblocked@.contains_key(d) ==> unblocked@[d] == writer(batch, Register(d)),
        ensures
            unblocked@.len() == 0,
        decreases unblocked@.len(),
    {
        match least_entry(&unblocked) {
            Some((destination, copy)) => {
                proof {
                    // No ready copy writes a register between the bound and
                    // the least destination that is left.
                    assert forall|d: u32| bound <= d < destination implies !(
                    #[trigger] ready_destination(batch, Register(d))) by {
                        assert(!unblocked@.contains_key(d));
                    }
                    lemma_ready_below_skip(batch, bound, destination as nat);
                    assert(ready_below(batch, (destination + 1) as nat) == ready_below(
                        batch,
                        destination as nat,
                    ).push(copy));
                    bound = (destination + 1) as nat;
                }
                available.push(copy);
                unblocked.remove(&destination);
            },
            None => {
                break ;
            },
        }
    }

    let ghost mut st = Progress::start(batch);
    proof {
        assert forall|d: u32| bound <= d < register_limit() implies !(
        #[trigger] ready_destination(batch, Register(d))) by {
            assert(!unblocked@.contains_key(d));
        }
        lemma_ready_below_skip(batch, bound, register_limit());
        assert(pending@ =~= st.pending);
        lemma_start_consistent(batch, spare);
    }

    while !pending.is_empty() || !available.is_empty()
        invariant
            st.pending == pending@,
            st.holder == current_holder@,
            st.available == available@,
            st.emitted == sequentialized@,
            consistent(st, batch, spare),
            st.run(spare) == sequentialization(batch, spare),
        ensures
            pending@.len() == 0,
            available@.len() == 0,
        decreases st.distance(),
    {
        let ghost before = st.distance();
        while available.len() > 0
            invariant
                st.distance() <= before,
                st.pending == pending@,
                st.holder == current_holder@,
                st.available == available@,
                st.emitted == sequentialized@,
                consistent(st, batch, spare),
                st.run(spare) == sequentialization(batch, spare),
            decreases st.distance(),
        {
            proof {
                lemma_emit_consistent(st, batch, spare);
            }
            let copy = available.pop().unwrap();
            // A copy that waits always has a holder for what it reads.
            let held = *current_holder.get(&copy.source.0).unwrap();
            // Materialize the copy.
            sequentialized.push(
                RegisterCopy { source: Register(held), destination: copy.destination },
            );
            match pending.remove(&held) {
                Some(available_copy) => {
                    available.push(available_copy);
                    // The value is read in its new place from now on.
                    current_holder.insert(copy.source.0, copy.destination.0);
                },
                None => {
                    if held == spare.0 {
                        // The spare register is free for the next cycle.
                        current_holder.insert(copy.source.0, copy.destination.0);
                    }
                },
            }
            proof {
                st = st.emit(spare);
            }
        }
        match least_entry(&pending) {
            Some((destination, copy)) => {
                proof {
                    lemma_spill_consistent(st, batch, spare);
                }
                sequentialized.push(RegisterCopy { source: copy.destination, destination: spare });
                current_holder.insert(copy.destination.0, spare.0);
                available.push(copy);
                pending.remove(&destination);
                proof {
                    st = st.spill(spare);
                }
            },
            None => {
                // Nothing pending.
                break ;
            },
        }
    }
    proof {
        lemma_sequentialization_equivalent(batch, spare);
        lemma_sequentialization_writes(batch, spare);
        assert forall|other: Seq<RegisterCopy>|
            valid_batch(other, spare) && other.to_set() == batch.to_set() implies sequentialized@
            == #[trigger] sequentialization(other, spare) by {
            lemma_order_is_immaterial(batch, other, spare);
        }
        lemma_sequentialization_bounded(batch, spare);
    }
    sequentialized
}

/// Checks the batch, and sequentializes it where it is valid. A batch in
/// which a copy reads or writes `spare`, or in which two copies write one
/// register, is refused with the error of the first copy that breaks a rule.
pub fn try_sequentialize_register(parallel_copies: &[RegisterCopy], spare: Register) -> (outcome:
    Result<Vec<RegisterCopy>, BatchError>)
    ensures
        outcome is Ok <==> valid_batch(parallel_copies@, spare),
        outcome is Err <==> uses_spare(parallel_copies@, spare) || repeats_a_destination(
            parallel_copies@,
        ),
        outcome matches Ok(sequentialized) ==> {
            &&& sequentialized@ == sequentialization(parallel_copies@, spare)
            &&& forall|other: Seq<RegisterCopy>|
                valid_batch(other, spare) && other.to_set() == parallel_copies@.to_set()
                    ==> sequentialized@ == #[trigger] sequentialization(other, spare)
            &&& sequentializes(sequentialized@, parallel_copies@, spare)
            &&& writes_as(sequentialized@, parallel_copies@, spare)
            &&& parallel_copies.len() <= sequentialized.len() <= parallel_copies.len()
                + cycle_count(parallel_copies@)
        },
        outcome matches Err(error) ==> exists|i: int|
            first_offence(parallel_copies@, spare, i, error),
{
    match validate_batch(parallel_copies, spare) {
        Ok(()) => Ok(sequentialize_register(parallel_copies, spare)),
        Err(error) => Err(error),
    }
}

} // verus!
