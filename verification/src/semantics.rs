//! What a list of copies does to a register file, when its copies run one
//! after another and when they all run at once.

use crate::register::{Register, RegisterCopy};
use std::collections::HashMap;
use vstd::prelude::*;

verus! {

/// Whether some copy of `copies` writes `register`.
pub open spec fn writes(copies: Seq<RegisterCopy>, register: Register) -> bool {
    exists|i: int| 0 <= i < copies.len() && (#[trigger] copies[i]).destination == register
}

/// Whether some copy of `copies` reads `register`.
pub open spec fn reads(copies: Seq<RegisterCopy>, register: Register) -> bool {
    exists|i: int| 0 <= i < copies.len() && (#[trigger] copies[i]).source == register
}

/// A register file that gives every register a value.
pub open spec fn total(registers: Map<Register, u32>) -> bool {
    forall|r: Register| registers.contains_key(r)
}

/// The register file in which every register holds its own number.
pub open spec fn numbered_registers() -> Map<Register, u32> {
    Map::total(|r: Register| r.0)
}

/// The register file after the copies have run one after another, each seeing
/// what the earlier ones wrote.
pub open spec fn run_sequential(copies: Seq<RegisterCopy>, registers: Map<Register, u32>) -> Map<
    Register,
    u32,
>
    decreases copies.len(),
{
    if copies.len() == 0 {
        registers
    } else {
        let before = run_sequential(copies.drop_last(), registers);
        before.insert(copies.last().destination, before[copies.last().source])
    }
}

/// The register file after the copies have run at once: every source is read
/// in `registers`. Where two copies write one register, the later one wins.
pub open spec fn run_parallel(copies: Seq<RegisterCopy>, registers: Map<Register, u32>) -> Map<
    Register,
    u32,
>
    decreases copies.len(),
{
    if copies.len() == 0 {
        registers
    } else {
        run_parallel(copies.drop_last(), registers).insert(
            copies.last().destination,
            registers[copies.last().source],
        )
    }
}

/// The register whose initial value `register` holds after the copies have
/// run one after another.
pub open spec fn sequential_origin(copies: Seq<RegisterCopy>, register: Register) -> Register
    decreases copies.len(),
{
    if copies.len() == 0 {
        register
    } else if copies.last().destination == register {
        sequential_origin(copies.drop_last(), copies.last().source)
    } else {
        sequential_origin(copies.drop_last(), register)
    }
}

/// The register whose initial value `register` holds after the copies have
/// run at once.
pub open spec fn parallel_origin(copies: Seq<RegisterCopy>, register: Register) -> Register
    decreases copies.len(),
{
    if copies.len() == 0 {
        register
    } else if copies.last().destination == register {
        copies.last().source
    } else {
        parallel_origin(copies.drop_last(), register)
    }
}

/// Run one copy after another, `sequence` leaves in every register but `spare`
/// what `batch` leaves there when its copies run at once, whatever the
/// registers hold before. What it leaves in `spare` is not said.
pub open spec fn sequentializes(
    sequence: Seq<RegisterCopy>,
    batch: Seq<RegisterCopy>,
    spare: Register,
) -> bool {
    forall|registers: Map<Register, u32>, r: Register|
        total(registers) && r != spare ==> #[trigger] run_sequential(sequence, registers)[r]
            == run_parallel(batch, registers)[r]
}

/// `sequence` writes every register that `batch` writes, and besides those
/// no register but `spare`.
pub open spec fn writes_as(
    sequence: Seq<RegisterCopy>,
    batch: Seq<RegisterCopy>,
    spare: Register,
) -> bool {
    &&& forall|i: int|
        0 <= i < sequence.len() ==> (#[trigger] sequence[i]).destination == spare || writes(
            batch,
            sequence[i].destination,
        )
    &&& forall|r: Register| #[trigger] writes(batch, r) ==> writes(sequence, r)
}

/// One more copy at the end writes what the list wrote before and its own
/// destination.
pub proof fn lemma_writes_push(copies: Seq<RegisterCopy>, copy: RegisterCopy, register: Register)
    ensures
        writes(copies.push(copy), register) <==> writes(copies, register) || copy.destination
            == register,
{
    let longer = copies.push(copy);
    if writes(copies, register) {
        let k = choose|k: int|
            0 <= k < copies.len() && (#[trigger] copies[k]).destination == register;
        assert(longer[k] == copies[k]);
    }
    if copy.destination == register {
        assert(longer[copies.len() as int].destination == register);
    }
}

/// One more copy at the end reads what the list read before and its own
/// source.
pub proof fn lemma_reads_push(copies: Seq<RegisterCopy>, copy: RegisterCopy, register: Register)
    ensures
        reads(copies.push(copy), register) <==> reads(copies, register) || copy.source == register,
{
    let longer = copies.push(copy);
    if reads(copies, register) {
        let k = choose|k: int| 0 <= k < copies.len() && (#[trigger] copies[k]).source == register;
        assert(longer[k] == copies[k]);
    }
    if copy.source == register {
        assert(longer[copies.len() as int].source == register);
    }
}

/// Two lists that move the same initial value into every register but
/// `spare` leave the same values there.
pub proof fn lemma_same_origins_sequentialize(
    sequence: Seq<RegisterCopy>,
    batch: Seq<RegisterCopy>,
    spare: Register,
)
    requires
        forall|r: Register|
            r != spare ==> #[trigger] sequential_origin(sequence, r) == parallel_origin(batch, r),
    ensures
        sequentializes(sequence, batch, spare),
{
    assert forall|registers: Map<Register, u32>, r: Register|
        total(registers) && r != spare implies #[trigger] run_sequential(sequence, registers)[r]
        == run_parallel(batch, registers)[r] by {
        lemma_run_sequential_origin(sequence, registers, r);
        lemma_run_parallel_origin(batch, registers, r);
    }
}

/// Running copies one after another moves initial values around: each
/// register ends with the initial value of its sequential origin.
pub proof fn lemma_run_sequential_origin(
    copies: Seq<RegisterCopy>,
    registers: Map<Register, u32>,
    register: Register,
)
    requires
        total(registers),
    ensures
        total(run_sequential(copies, registers)),
        run_sequential(copies, registers)[register] == registers[sequential_origin(
            copies,
            register,
        )],
    decreases copies.len(),
{
    if copies.len() > 0 {
        let last = copies.last();
        lemma_run_sequential_origin(copies.drop_last(), registers, last.source);
        lemma_run_sequential_origin(copies.drop_last(), registers, register);
    }
}

/// Running copies at once moves initial values around: each register ends
/// with the initial value of its parallel origin.
pub proof fn lemma_run_parallel_origin(
    copies: Seq<RegisterCopy>,
    registers: Map<Register, u32>,
    register: Register,
)
    requires
        total(registers),
    ensures
        total(run_parallel(copies, registers)),
        run_parallel(copies, registers)[register] == registers[parallel_origin(copies, register)],
    decreases copies.len(),
{
    if copies.len() > 0 {
        lemma_run_parallel_origin(copies.drop_last(), registers, register);
    }
}

/// A register that no copy writes keeps its value, however the copies run.
pub proof fn lemma_unwritten_keeps_origin(copies: Seq<RegisterCopy>, register: Register)
    requires
        !writes(copies, register),
    ensures
        sequential_origin(copies, register) == register,
        parallel_origin(copies, register) == register,
    decreases copies.len(),
{
    if copies.len() > 0 {
        let earlier = copies.drop_last();
        lemma_unwritten_keeps_origin(earlier, register);
    }
}

/// Where no two copies write one register, the parallel origin of a written
/// register is the source of the copy that writes it.
pub proof fn lemma_parallel_origin_of_destination(copies: Seq<RegisterCopy>, i: int)
    requires
        0 <= i < copies.len(),
        forall|a: int, b: int|
            0 <= a < b < copies.len() ==> (#[trigger] copies[a]).destination != (
            #[trigger] copies[b]).destination,
    ensures
        parallel_origin(copies, copies[i].destination) == copies[i].source,
    decreases copies.len(),
{
    if i < copies.len() - 1 {
        let earlier = copies.drop_last();
        lemma_parallel_origin_of_destination(earlier, i);
    }
}

/// Runs the copies one after another on registers that each hold their own
/// number, and returns the value of every register that was written, by the
/// register's number.
pub fn execute_sequential(copies: &[RegisterCopy]) -> (values: HashMap<u32, u32>)
    ensures
        forall|r: u32| values@.contains_key(r) <==> writes(copies@, Register(r)),
        forall|r: u32| #[trigger]
            values@.contains_key(r) ==> values@[r] == run_sequential(
                copies@,
                numbered_registers(),
            )[Register(r)],
{
    let mut values: HashMap<u32, u32> = HashMap::new();
    let mut i: usize = 0;
    while i < copies.len()
        invariant
            i <= copies.len(),
            forall|r: u32|
                values@.contains_key(r) <==> writes(copies@.take(i as int), Register(r)),
            forall|r: u32| #[trigger]
                values@.contains_key(r) ==> values@[r] == run_sequential(
                    copies@.take(i as int),
                    numbered_registers(),
                )[Register(r)],
        decreases copies.len() - i,
    {
        let copy = copies[i];
        let value = match values.get(&copy.source.0) {
            Some(written) => *written,
            None => copy.source.0,
        };
        proof {
            let done = copies@.take(i as int);
            let next = copies@.take(i + 1);
            assert(next == done.push(copy));
            assert(next.drop_last() == done);
            if !values@.contains_key(copy.source.0) {
                lemma_unwritten_keeps_origin(done, copy.source);
                lemma_run_sequential_origin(done, numbered_registers(), copy.source);
            }
            assert forall|r: u32|
                values@.insert(copy.destination.0, value).contains_key(r) <==> writes(
                    next,
                    Register(r),
                ) by {
                lemma_writes_push(done, copy, Register(r));
            }
        }
        values.insert(copy.destination.0, value);
        i += 1;
    }
    proof {
        assert(copies@.take(copies.len() as int) == copies@);
    }
    values
}

/// Runs the copies at once on registers that each hold their own number, and
/// returns the value of every register that was written, by the register's
/// number.
pub fn execute_parallel(copies: &[RegisterCopy]) -> (values: HashMap<u32, u32>)
    ensures
        forall|r: u32| values@.contains_key(r) <==> writes(copies@, Register(r)),
        forall|r: u32| #[trigger]
            values@.contains_key(r) ==> values@[r] == run_parallel(
                copies@,
                numbered_registers(),
            )[Register(r)],
{
    let mut values: HashMap<u32, u32> = HashMap::new();
    let mut i: usize = 0;
    while i < copies.len()
        invariant
            i <= copies.len(),
            forall|r: u32|
                values@.contains_key(r) <==> writes(copies@.take(i as int), Register(r)),
            forall|r: u32| #[trigger]
                values@.contains_key(r) ==> values@[r] == run_parallel(
                    copies@.take(i as int),
                    numbered_registers(),
                )[Register(r)],
        decreases copies.len() - i,
    {
        let copy = copies[i];
        proof {
            let done = copies@.take(i as int);
            let next = copies@.take(i + 1);
            assert(next == done.push(copy));
            assert(next.drop_last() == done);
            assert forall|r: u32|
                values@.insert(copy.destination.0, copy.source.0).contains_key(r) <==> writes(
                    next,
                    Register(r),
                ) by {
                lemma_writes_push(done, copy, Register(r));
            }
        }
        values.insert(copy.destination.0, copy.source.0);
        i += 1;
    }
    proof {
        assert(copies@.take(copies.len() as int) == copies@);
    }
    values
}

} // verus!
