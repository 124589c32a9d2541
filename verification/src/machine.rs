//! The sequentializer as a machine: its state, the two steps it takes, and
//! the list of copies it emits when run to the end.

use crate::register::{Register, RegisterCopy};
use crate::semantics::{reads, writes};
use vstd::prelude::*;

verus! {

/// The state of the sequentializer between two steps. Registers are named by
/// their numbers in the keys of the two maps.
pub struct Progress {
    /// The copies that must wait, by destination: the destination of each
    /// still holds a value that a copy not yet emitted will read.
    pub pending: Map<u32, RegisterCopy>,
    /// For each source register of the batch, the number of the register that
    /// holds its initial value now.
    pub holder: Map<u32, u32>,
    /// The copies that can be emitted now. The last one is emitted first.
    pub available: Seq<RegisterCopy>,
    /// The copies emitted so far, in order.
    pub emitted: Seq<RegisterCopy>,
}

/// `key` is the least key of `pending`.
pub open spec fn is_least_key(pending: Map<u32, RegisterCopy>, key: u32) -> bool {
    &&& pending.contains_key(key)
    &&& forall|other: u32| pending.contains_key(other) ==> key <= other
}

/// The least key of `pending`, where it has one.
pub open spec fn least_key(pending: Map<u32, RegisterCopy>) -> u32 {
    choose|key: u32| is_least_key(pending, key)
}

/// A map with a key has a least key.
pub proof fn lemma_least_key_below(pending: Map<u32, RegisterCopy>, key: u32)
    requires
        pending.contains_key(key),
    ensures
        is_least_key(pending, least_key(pending)),
        least_key(pending) <= key,
    decreases key,
{
    if exists|lower: u32| lower < key && pending.contains_key(lower) {
        let lower = choose|lower: u32| lower < key && pending.contains_key(lower);
        lemma_least_key_below(pending, lower);
    } else {
        assert(is_least_key(pending, key));
    }
    let least = least_key(pending);
    assert(is_least_key(pending, least));
}

/// A finite map that is not empty has a least key.
pub proof fn lemma_least_key(pending: Map<u32, RegisterCopy>)
    requires
        pending.dom().finite(),
        pending.len() > 0,
    ensures
        is_least_key(pending, least_key(pending)),
{
    lemma_least_key_below(pending, pending.dom().choose());
}

/// The copy of `copies` that writes `register`, where one does.
pub open spec fn writer(copies: Seq<RegisterCopy>, register: Register) -> RegisterCopy {
    copies[choose|i: int| 0 <= i < copies.len() && (#[trigger] copies[i]).destination == register]
}

/// In a list in which no register is written twice, each copy is the writer
/// of its destination.
pub proof fn lemma_writer_is(copies: Seq<RegisterCopy>, copy: RegisterCopy)
    requires
        forall|i: int, j: int|
            0 <= i < j < copies.len() ==> (#[trigger] copies[i]).destination != (
            #[trigger] copies[j]).destination,
        copies.contains(copy),
    ensures
        writer(copies, copy.destination) == copy,
{
    let k = choose|k: int| 0 <= k < copies.len() && copies[k] == copy;
    assert(copies[k].destination == copy.destination);
    let m = choose|m: int|
        0 <= m < copies.len() && (#[trigger] copies[m]).destination == copy.destination;
    if m < k {
        assert(copies[m].destination != copies[k].destination);
    } else if k < m {
        assert(copies[k].destination != copies[m].destination);
    }
}

/// Tells the copies of the batch `copies` that can be emitted at once: those
/// whose destination no copy of the batch reads.
pub open spec fn ready(copies: Seq<RegisterCopy>) -> spec_fn(RegisterCopy) -> bool {
    |copy: RegisterCopy| !reads(copies, copy.destination)
}

/// The batch writes `register` and does not read it: the copy that writes it
/// can be emitted at once.
pub open spec fn ready_destination(copies: Seq<RegisterCopy>, register: Register) -> bool {
    writes(copies, register) && !reads(copies, register)
}

/// One more than the greatest number of a register.
pub open spec fn register_limit() -> nat {
    (u32::MAX + 1) as nat
}

/// The ready copies of the batch that write a register with a number below
/// `bound`, in the order of their destinations, the least first.
pub open spec fn ready_below(copies: Seq<RegisterCopy>, bound: nat) -> Seq<RegisterCopy>
    decreases bound,
{
    if bound == 0 {
        Seq::empty()
    } else {
        let lower = ready_below(copies, (bound - 1) as nat);
        let register = Register((bound - 1) as u32);
        if ready_destination(copies, register) {
            lower.push(writer(copies, register))
        } else {
            lower
        }
    }
}

/// The ready copies of the batch in the order of their destinations, the
/// least first. The order in which the batch holds them does not show.
pub open spec fn ready_in_order(copies: Seq<RegisterCopy>) -> Seq<RegisterCopy> {
    ready_below(copies, register_limit())
}

/// The ready copies below a bound are copies of the batch that nothing
/// blocks, in ascending order of destination, and none is left out.
pub proof fn lemma_ready_below(copies: Seq<RegisterCopy>, bound: nat)
    requires
        bound <= register_limit(),
        forall|i: int, j: int|
            0 <= i < j < copies.len() ==> (#[trigger] copies[i]).destination != (
            #[trigger] copies[j]).destination,
    ensures
        forall|i: int|
            0 <= i < ready_below(copies, bound).len() ==> {
                let copy = #[trigger] ready_below(copies, bound)[i];
                &&& copies.contains(copy)
                &&& !reads(copies, copy.destination)
                &&& copy.destination.0 < bound
            },
        forall|i: int, j: int|
            0 <= i < j < ready_below(copies, bound).len() ==> (#[trigger] ready_below(
                copies,
                bound,
            )[i]).destination.0 < (#[trigger] ready_below(copies, bound)[j]).destination.0,
        forall|copy: RegisterCopy|
            #[trigger] copies.contains(copy) && !reads(copies, copy.destination)
                && copy.destination.0 < bound ==> ready_below(copies, bound).contains(copy),
    decreases bound,
{
    if bound > 0 {
        let lower = ready_below(copies, (bound - 1) as nat);
        let all = ready_below(copies, bound);
        let register = Register((bound - 1) as u32);
        lemma_ready_below(copies, (bound - 1) as nat);
        if ready_destination(copies, register) {
            let k = choose|k: int|
                0 <= k < copies.len() && (#[trigger] copies[k]).destination == register;
            let added = writer(copies, register);
            assert(added == copies[k]);
            assert(all == lower.push(added));
            assert forall|i: int| 0 <= i < all.len() implies {
                let copy = #[trigger] all[i];
                &&& copies.contains(copy)
                &&& !reads(copies, copy.destination)
                &&& copy.destination.0 < bound
            } by {
                if i < lower.len() {
                    assert(all[i] == lower[i]);
                }
            }
            assert forall|i: int, j: int| 0 <= i < j < all.len() implies (
            #[trigger] all[i]).destination.0 < (#[trigger] all[j]).destination.0 by {
                assert(all[i] == lower[i]);
                if j < lower.len() {
                    assert(all[j] == lower[j]);
                }
            }
            assert forall|copy: RegisterCopy|
                #[trigger] copies.contains(copy) && !reads(copies, copy.destination)
                    && copy.destination.0 < bound implies all.contains(copy) by {
                if copy.destination.0 < bound - 1 {
                    assert(lower.contains(copy));
                    let i = choose|i: int| 0 <= i < lower.len() && lower[i] == copy;
                    assert(all[i] == copy);
                } else {
                    let m = choose|m: int| 0 <= m < copies.len() && copies[m] == copy;
                    assert(copy.destination == register);
                    if m < k {
                        assert(copies[m].destination != copies[k].destination);
                    } else if k < m {
                        assert(copies[k].destination != copies[m].destination);
                    }
                    assert(all[lower.len() as int] == copy);
                }
            }
        } else {
            assert forall|copy: RegisterCopy|
                #[trigger] copies.contains(copy) && !reads(copies, copy.destination)
                    && copy.destination.0 < bound implies all.contains(copy) by {
                if copy.destination.0 == bound - 1 {
                    let m = choose|m: int| 0 <= m < copies.len() && copies[m] == copy;
                    assert(copies[m].destination == register);
                    assert(false);
                }
            }
        }
    }
}

/// Where no ready copy writes a register with a number from `from` up to
/// `bound`, the ready copies below `bound` are those below `from`.
pub proof fn lemma_ready_below_skip(copies: Seq<RegisterCopy>, from: nat, bound: nat)
    requires
        from <= bound <= register_limit(),
        forall|d: u32| from <= d < bound ==> !#[trigger] ready_destination(copies, Register(d)),
    ensures
        ready_below(copies, bound) == ready_below(copies, from),
    decreases bound,
{
    if from < bound {
        lemma_ready_below_skip(copies, from, (bound - 1) as nat);
        assert(!ready_destination(copies, Register((bound - 1) as u32)));
    }
}

impl Progress {
    /// The state in which the sequentializer starts on the batch `copies`:
    /// every source holds its own value, the ready copies are available in
    /// the order of their destinations, so that the one with the greatest
    /// destination is emitted first, and the others are pending.
    pub open spec fn start(copies: Seq<RegisterCopy>) -> Progress {
        Progress {
            pending: Map::new(
                |d: u32| writes(copies, Register(d)) && reads(copies, Register(d)),
                |d: u32| writer(copies, Register(d)),
            ),
            holder: Map::new(|s: u32| reads(copies, Register(s)), |s: u32| s),
            available: ready_in_order(copies),
            emitted: Seq::empty(),
        }
    }

    /// How far the machine is from its end. Every step brings it closer.
    pub open spec fn distance(self) -> nat {
        2 * self.pending.len() + self.available.len()
    }

    /// Emits the last available copy, reading its value where the holder map
    /// says it is now. If a pending copy writes the register just read, that
    /// copy becomes available, and the value is from now on read in its new
    /// place; so it is when it was read in the spare register.
    pub open spec fn emit(self, spare: Register) -> Progress
        recommends
            self.available.len() > 0,
            self.holder.contains_key(self.available.last().source.0),
    {
        let copy = self.available.last();
        let rest = self.available.drop_last();
        let held = self.holder[copy.source.0];
        let emitted = self.emitted.push(
            RegisterCopy { source: Register(held), destination: copy.destination },
        );
        if self.pending.contains_key(held) {
            Progress {
                pending: self.pending.remove(held),
                holder: self.holder.insert(copy.source.0, copy.destination.0),
                available: rest.push(self.pending[held]),
                emitted,
            }
        } else if held == spare.0 {
            Progress {
                pending: self.pending,
                holder: self.holder.insert(copy.source.0, copy.destination.0),
                available: rest,
                emitted,
            }
        } else {
            Progress { pending: self.pending, holder: self.holder, available: rest, emitted }
        }
    }

    /// Breaks a cycle: saves the destination of the pending copy with the
    /// least destination into the spare register, and makes that copy
    /// available.
    pub open spec fn spill(self, spare: Register) -> Progress
        recommends
            self.pending.len() > 0,
    {
        let least = least_key(self.pending);
        let copy = self.pending[least];
        Progress {
            pending: self.pending.remove(least),
            holder: self.holder.insert(copy.destination.0, spare.0),
            available: self.available.push(copy),
            emitted: self.emitted.push(
                RegisterCopy { source: copy.destination, destination: spare },
            ),
        }
    }

    /// The copies emitted when the machine runs from this state to its end:
    /// it emits available copies while there are any, then breaks a cycle if
    /// a copy is still pending, and so on until no copy is left.
    pub open spec fn run(self, spare: Register) -> Seq<RegisterCopy>
        decreases self.distance(),
        when self.pending.dom().finite()
    {
        if self.available.len() > 0 {
            self.emit(spare).run(spare)
        } else if self.pending.len() > 0 {
            proof {
                lemma_least_key(self.pending);
            }
            self.spill(spare).run(spare)
        } else {
            self.emitted
        }
    }
}

/// The list of copies that the sequentializer emits for the batch `copies`
/// and the spare register `spare`.
pub open spec fn sequentialization(copies: Seq<RegisterCopy>, spare: Register) -> Seq<
    RegisterCopy,
> {
    Progress::start(copies).run(spare)
}

} // verus!
