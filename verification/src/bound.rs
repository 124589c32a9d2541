//! How many copies the sequentializer emits: one for each copy of the batch,
//! and one more for each cycle that it breaks.

use crate::batch::{distinct_destinations, valid_batch};
use crate::consistency::{
    consistent, lemma_emit_consistent, lemma_filter_distinct, lemma_only_cycles_left,
    lemma_spill_consistent, lemma_spill_reads, lemma_start_consistent,
};
use crate::cycles::{
    cycle_count, cycle_leaders, iterate, leads_cycle, lemma_cycles_finite, lemma_iterate_returns,
    lemma_iterate_stays, origin_after,
};
use crate::machine::{
    least_key, lemma_least_key, lemma_ready_below, ready, ready_in_order, register_limit,
    sequentialization, Progress,
};
use crate::register::{Register, RegisterCopy};
use crate::semantics::{lemma_parallel_origin_of_destination, parallel_origin, reads, writes};
use vstd::prelude::*;

verus! {

/// The registers that the copies of `emitted` save into `spare`.
pub open spec fn spilled(emitted: Seq<RegisterCopy>, spare: Register) -> Set<Register> {
    Set::new(
        |r: Register|
            exists|i: int|
                0 <= i < emitted.len() && #[trigger] emitted[i] == (RegisterCopy {
                    source: r,
                    destination: spare,
                }),
    )
}

/// Every copy of the batch waits or has been emitted, and every other
/// emitted copy saves the least register of a cycle of the batch, each such
/// register once.
pub open spec fn accounted(st: Progress, batch: Seq<RegisterCopy>, spare: Register) -> bool {
    &&& spilled(st.emitted, spare).finite()
    &&& st.emitted.len() + st.pending.len() + st.available.len() == batch.len() + spilled(
        st.emitted,
        spare,
    ).len()
    &&& forall|r: Register| #[trigger]
        spilled(st.emitted, spare).contains(r) ==> leads_cycle(batch, r)
            && !st.pending.contains_key(r.0)
}

/// What one more emitted copy saves into the spare register.
pub proof fn lemma_spilled_push(emitted: Seq<RegisterCopy>, copy: RegisterCopy, spare: Register)
    ensures
        spilled(emitted.push(copy), spare) == if copy.destination == spare {
            spilled(emitted, spare).insert(copy.source)
        } else {
            spilled(emitted, spare)
        },
{
    let longer = emitted.push(copy);
    let expected = if copy.destination == spare {
        spilled(emitted, spare).insert(copy.source)
    } else {
        spilled(emitted, spare)
    };
    assert forall|r: Register| spilled(longer, spare).contains(r) <==> expected.contains(r) by {
        let saved = RegisterCopy { source: r, destination: spare };
        if spilled(emitted, spare).contains(r) {
            let i = choose|i: int| 0 <= i < emitted.len() && #[trigger] emitted[i] == saved;
            assert(longer[i] == saved);
        }
        if copy.destination == spare && r == copy.source {
            assert(longer[emitted.len() as int] == saved);
        }
    }
}

/// An emit step keeps the account: one more copy is emitted, one fewer
/// waits.
pub proof fn lemma_emit_accounted(st: Progress, batch: Seq<RegisterCopy>, spare: Register)
    requires
        consistent(st, batch, spare),
        accounted(st, batch, spare),
        st.available.len() > 0,
    ensures
        accounted(st.emit(spare), batch, spare),
{
    let copy = st.available.last();
    let held = st.holder[copy.source.0];
    let written = RegisterCopy { source: Register(held), destination: copy.destination };
    lemma_spilled_push(st.emitted, written, spare);
}

/// In a batch without repeated destinations, while a pending copy waits
/// for the register `key`, the batch moves into `key` what that copy reads.
pub proof fn lemma_pending_origin(st: Progress, batch: Seq<RegisterCopy>, spare: Register, key: u32)
    requires
        consistent(st, batch, spare),
        st.pending.contains_key(key),
    ensures
        writes(batch, Register(key)),
        parallel_origin(batch, Register(key)) == st.pending[key].source,
{
    let copy = st.pending[key];
    let i = choose|i: int| 0 <= i < batch.len() && batch[i] == copy;
    lemma_parallel_origin_of_destination(batch, i);
}

/// When no copy is available, going back from a pending destination along
/// the batch is going back along the pending copies.
pub proof fn lemma_origin_along_pending(
    st: Progress,
    batch: Seq<RegisterCopy>,
    spare: Register,
    key: u32,
    rounds: nat,
)
    requires
        consistent(st, batch, spare),
        st.available.len() == 0,
        st.pending.contains_key(key),
    ensures
        origin_after(batch, Register(key), rounds) == Register(
            iterate(|k: u32| st.pending[k].source.0, key, rounds),
        ),
        st.pending.contains_key(iterate(|k: u32| st.pending[k].source.0, key, rounds)),
    decreases rounds,
{
    let step = |k: u32| st.pending[k].source.0;
    lemma_only_cycles_left(st, batch, spare);
    assert forall|j: u32| st.pending.dom().contains(j) implies st.pending.dom().contains(
        #[trigger] step(j),
    ) by {
        assert(st.pending.contains_key(j));
    }
    lemma_iterate_stays(st.pending.dom(), step, key, rounds);
    if rounds > 0 {
        let earlier = (rounds - 1) as nat;
        lemma_origin_along_pending(st, batch, spare, key, earlier);
        lemma_pending_origin(st, batch, spare, iterate(step, key, earlier));
    }
}

/// When no copy is available, the least pending destination is the least
/// register of a cycle of the batch.
pub proof fn lemma_least_leads_cycle(st: Progress, batch: Seq<RegisterCopy>, spare: Register)
    requires
        consistent(st, batch, spare),
        st.available.len() == 0,
        st.pending.len() > 0,
    ensures
        leads_cycle(batch, Register(least_key(st.pending))),
{
    lemma_least_key(st.pending);
    let least = least_key(st.pending);
    let keys = st.pending.dom();
    let step = |k: u32| st.pending[k].source.0;
    lemma_only_cycles_left(st, batch, spare);
    lemma_iterate_returns(keys, step, least);
    let rounds = choose|rounds: nat| rounds > 0 && #[trigger] iterate(step, least, rounds) == least;
    lemma_origin_along_pending(st, batch, spare, least, rounds);
    assert forall|n: nat| (#[trigger] origin_after(batch, Register(least), n)).0 >= least by {
        lemma_origin_along_pending(st, batch, spare, least, n);
    }
}

/// A spill step keeps the account: it emits one copy more than the batch
/// has, for the cycle that it breaks.
pub proof fn lemma_spill_accounted(st: Progress, batch: Seq<RegisterCopy>, spare: Register)
    requires
        consistent(st, batch, spare),
        accounted(st, batch, spare),
        st.available.len() == 0,
        st.pending.len() > 0,
    ensures
        accounted(st.spill(spare), batch, spare),
{
    lemma_spill_reads(st, batch, spare);
    lemma_least_leads_cycle(st, batch, spare);
    let least = least_key(st.pending);
    let moved = st.pending[least];
    let written = RegisterCopy { source: moved.destination, destination: spare };
    lemma_spilled_push(st.emitted, written, spare);
}

/// Of the copies of a list, as many pass a test as do not fail it.
pub proof fn lemma_filter_split(
    copies: Seq<RegisterCopy>,
    keep: spec_fn(RegisterCopy) -> bool,
    drop: spec_fn(RegisterCopy) -> bool,
)
    requires
        forall|c: RegisterCopy| #[trigger] keep(c) <==> !drop(c),
    ensures
        copies.filter(keep).len() + copies.filter(drop).len() == copies.len(),
    decreases copies.len(),
{
    reveal(Seq::filter);
    if copies.len() > 0 {
        lemma_filter_split(copies.drop_last(), keep, drop);
    }
}

/// There are as many ready copies in the order of their destinations as in
/// the order of the batch.
pub proof fn lemma_ready_length(batch: Seq<RegisterCopy>)
    requires
        distinct_destinations(batch),
    ensures
        ready_in_order(batch).len() == batch.filter(ready(batch)).len(),
{
    let sorted = ready_in_order(batch);
    let kept = batch.filter(ready(batch));
    lemma_ready_below(batch, register_limit());
    lemma_filter_distinct(batch, ready(batch));
    assert(sorted.no_duplicates());
    assert(kept.no_duplicates()) by {
        assert forall|i: int, j: int|
            0 <= i < kept.len() && 0 <= j < kept.len() && i != j implies kept[i] != kept[j] by {
            if i < j {
                assert(kept[i].destination != kept[j].destination);
            } else {
                assert(kept[j].destination != kept[i].destination);
            }
        }
    }
    assert forall|c: RegisterCopy| sorted.to_set().contains(c) <==> kept.to_set().contains(c) by {
        if sorted.contains(c) {
            let i = choose|i: int| 0 <= i < sorted.len() && sorted[i] == c;
            let k = choose|k: int| 0 <= k < batch.len() && batch[k] == sorted[i];
            assert(ready(batch)(batch[k]));
            batch.lemma_filter_contains(ready(batch), k);
        }
        if kept.contains(c) {
            let i = choose|i: int| 0 <= i < kept.len() && kept[i] == c;
            batch.lemma_filter_pred(ready(batch), i);
            batch.lemma_filter_contains_rev(ready(batch), c);
        }
    }
    assert(sorted.to_set() =~= kept.to_set());
    sorted.unique_seq_to_set();
    kept.unique_seq_to_set();
}

/// At the start every copy of the batch waits, and none has been emitted.
pub proof fn lemma_start_accounted(batch: Seq<RegisterCopy>, spare: Register)
    requires
        valid_batch(batch, spare),
    ensures
        accounted(Progress::start(batch), batch, spare),
{
    let st = Progress::start(batch);
    let blocked = |c: RegisterCopy| reads(batch, c.destination);
    lemma_filter_split(batch, ready(batch), blocked);
    lemma_ready_length(batch);
    let waiting = batch.filter(blocked);
    let numbers = waiting.map_values(|c: RegisterCopy| c.destination.0);
    lemma_filter_distinct(batch, blocked);
    numbers.unique_seq_to_set();
    assert forall|d: u32| st.pending.dom().contains(d) <==> numbers.to_set().contains(d) by {
        if st.pending.dom().contains(d) {
            let i = choose|i: int|
                0 <= i < batch.len() && (#[trigger] batch[i]).destination == Register(d);
            batch.lemma_filter_contains(blocked, i);
            let k = choose|k: int| 0 <= k < waiting.len() && waiting[k] == batch[i];
            assert(numbers[k] == d);
        }
        if numbers.to_set().contains(d) {
            let k = choose|k: int| 0 <= k < numbers.len() && numbers[k] == d;
            batch.lemma_filter_contains_rev(blocked, waiting[k]);
        }
    }
    assert(st.pending.dom() =~= numbers.to_set());
    assert(spilled(st.emitted, spare) =~= Set::empty());
}

/// Run from a consistent state in which every copy is accounted for, the
/// machine emits as many copies as the batch has and one more for each cycle
/// of the batch that it breaks.
pub proof fn lemma_run_bounded(st: Progress, batch: Seq<RegisterCopy>, spare: Register)
    requires
        consistent(st, batch, spare),
        accounted(st, batch, spare),
    ensures
        batch.len() <= st.run(spare).len() <= batch.len() + cycle_count(batch),
    decreases st.distance(),
{
    if st.available.len() > 0 {
        lemma_emit_consistent(st, batch, spare);
        lemma_emit_accounted(st, batch, spare);
        lemma_run_bounded(st.emit(spare), batch, spare);
    } else if st.pending.len() > 0 {
        lemma_least_key(st.pending);
        lemma_spill_consistent(st, batch, spare);
        lemma_spill_accounted(st, batch, spare);
        lemma_run_bounded(st.spill(spare), batch, spare);
    } else {
        assert(st.run(spare) == st.emitted);
        lemma_cycles_finite(batch);
        vstd::set_lib::lemma_len_subset(spilled(st.emitted, spare), cycle_leaders(batch));
    }
}

/// The sequentializer emits at least as many copies as the batch has, and
/// at most one more for each cycle of the batch. For a batch without a cycle
/// it emits exactly as many copies as the batch has.
pub proof fn lemma_sequentialization_bounded(batch: Seq<RegisterCopy>, spare: Register)
    requires
        valid_batch(batch, spare),
    ensures
        batch.len() <= sequentialization(batch, spare).len() <= batch.len() + cycle_count(batch),
        cycle_count(batch) == 0 ==> sequentialization(batch, spare).len() == batch.len(),
{
    lemma_start_consistent(batch, spare);
    lemma_start_accounted(batch, spare);
    lemma_run_bounded(Progress::start(batch), batch, spare);
}

} // verus!
