//! The order in which a batch is written down does not show in what the
//! sequentializer emits.

use crate::batch::{distinct_destinations, valid_batch};
use crate::machine::{
    ready_below, ready_destination, register_limit, sequentialization, writer, Progress,
};
use crate::register::{Register, RegisterCopy};
use crate::semantics::{reads, writes};
use vstd::prelude::*;

verus! {

/// Two lists with the same copies read the same registers and write the same
/// registers.
pub proof fn lemma_same_copies(one: Seq<RegisterCopy>, other: Seq<RegisterCopy>, r: Register)
    requires
        one.to_set() == other.to_set(),
    ensures
        reads(one, r) <==> reads(other, r),
        writes(one, r) <==> writes(other, r),
{
    if reads(one, r) {
        let i = choose|i: int| 0 <= i < one.len() && (#[trigger] one[i]).source == r;
        assert(one.to_set().contains(one[i]));
        let j = choose|j: int| 0 <= j < other.len() && other[j] == one[i];
        assert(other[j].source == r);
    }
    if reads(other, r) {
        let i = choose|i: int| 0 <= i < other.len() && (#[trigger] other[i]).source == r;
        assert(other.to_set().contains(other[i]));
        let j = choose|j: int| 0 <= j < one.len() && one[j] == other[i];
        assert(one[j].source == r);
    }
    if writes(one, r) {
        let i = choose|i: int| 0 <= i < one.len() && (#[trigger] one[i]).destination == r;
        assert(one.to_set().contains(one[i]));
        let j = choose|j: int| 0 <= j < other.len() && other[j] == one[i];
        assert(other[j].destination == r);
    }
    if writes(other, r) {
        let i = choose|i: int| 0 <= i < other.len() && (#[trigger] other[i]).destination == r;
        assert(other.to_set().contains(other[i]));
        let j = choose|j: int| 0 <= j < one.len() && one[j] == other[i];
        assert(one[j].destination == r);
    }
}

/// Two lists with the same copies, in which no register is written twice,
/// have the same copy for the writer of a register.
pub proof fn lemma_same_writer(one: Seq<RegisterCopy>, other: Seq<RegisterCopy>, r: Register)
    requires
        distinct_destinations(one),
        one.to_set() == other.to_set(),
        writes(one, r),
    ensures
        writer(one, r) == writer(other, r),
{
    lemma_same_copies(one, other, r);
    let i = choose|i: int| 0 <= i < one.len() && (#[trigger] one[i]).destination == r;
    let j = choose|j: int| 0 <= j < other.len() && (#[trigger] other[j]).destination == r;
    assert(one[i] == writer(one, r));
    assert(other[j] == writer(other, r));
    assert(other.to_set().contains(other[j]));
    assert(one.contains(other[j]));
    let k = choose|k: int| 0 <= k < one.len() && one[k] == other[j];
    if i < k {
        assert(one[i].destination != one[k].destination);
    } else if k < i {
        assert(one[k].destination != one[i].destination);
    }
}

/// Two lists with the same copies have the same ready copies in the order of
/// their destinations.
pub proof fn lemma_same_ready(one: Seq<RegisterCopy>, other: Seq<RegisterCopy>, bound: nat)
    requires
        distinct_destinations(one),
        one.to_set() == other.to_set(),
        bound <= register_limit(),
    ensures
        ready_below(one, bound) == ready_below(other, bound),
    decreases bound,
{
    if bound > 0 {
        let register = Register((bound - 1) as u32);
        lemma_same_ready(one, other, (bound - 1) as nat);
        lemma_same_copies(one, other, register);
        if ready_destination(one, register) {
            lemma_same_writer(one, other, register);
        }
    }
}

/// The sequentializer emits the same list for two valid batches that hold the
/// same copies, in whatever order each holds them.
pub proof fn lemma_order_is_immaterial(
    one: Seq<RegisterCopy>,
    other: Seq<RegisterCopy>,
    spare: Register,
)
    requires
        valid_batch(one, spare),
        valid_batch(other, spare),
        one.to_set() == other.to_set(),
    ensures
        sequentialization(one, spare) == sequentialization(other, spare),
{
    let a = Progress::start(one);
    let b = Progress::start(other);
    assert forall|d: u32| a.pending.contains_key(d) <==> b.pending.contains_key(d) by {
        lemma_same_copies(one, other, Register(d));
    }
    assert forall|d: u32| a.pending.contains_key(d) implies a.pending[d] == b.pending[d] by {
        lemma_same_writer(one, other, Register(d));
    }
    assert(a.pending =~= b.pending);
    assert forall|s: u32| a.holder.contains_key(s) <==> b.holder.contains_key(s) by {
        lemma_same_copies(one, other, Register(s));
    }
    assert(a.holder =~= b.holder);
    lemma_same_ready(one, other, register_limit());
    assert(a == b);
}

} // verus!
