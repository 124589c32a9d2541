//! Which lists of copies can be run at once with a given spare register.

use crate::register::{Register, RegisterCopy};
use std::collections::HashSet;
use vstd::prelude::*;

verus! {

/// Why a list of copies is no parallel copy batch for a spare register.
#[derive(Debug, Clone, Copy, PartialEq, Eq, Structural)]
pub enum BatchError {
    /// A copy reads or writes the spare register.
    InvalidSpare,
    /// Two copies write the same register, which the error names.
    DuplicateDestination(Register),
}

/// No copy reads or writes `spare`.
pub open spec fn avoids(copies: Seq<RegisterCopy>, spare: Register) -> bool {
    forall|i: int| 0 <= i < copies.len() ==> !(#[trigger] copies[i]).mentions(spare)
}

/// No two copies write the same register.
pub open spec fn distinct_destinations(copies: Seq<RegisterCopy>) -> bool {
    forall|i: int, j: int|
        0 <= i < j < copies.len() ==> (#[trigger] copies[i]).destination != (
        #[trigger] copies[j]).destination
}

/// The copies form a parallel copy batch that `spare` can serve: none of them
/// touches `spare`, and no register is written twice.
pub open spec fn valid_batch(copies: Seq<RegisterCopy>, spare: Register) -> bool {
    avoids(copies, spare) && distinct_destinations(copies)
}

/// The copy at `i` writes a register that an earlier copy writes too.
pub open spec fn repeats_destination(copies: Seq<RegisterCopy>, i: int) -> bool {
    exists|j: int| 0 <= j < i && (#[trigger] copies[j]).destination == copies[i].destination
}

/// The copy at `i` breaks no rule, given the copies before it.
pub open spec fn sound_at(copies: Seq<RegisterCopy>, spare: Register, i: int) -> bool {
    !copies[i].mentions(spare) && !repeats_destination(copies, i)
}

/// The copy at `i` is the first that breaks a rule, and `error` is the rule it
/// breaks. A copy that breaks both is reported for the spare register.
pub open spec fn first_offence(
    copies: Seq<RegisterCopy>,
    spare: Register,
    i: int,
    error: BatchError,
) -> bool {
    &&& 0 <= i < copies.len()
    &&& forall|j: int| 0 <= j < i ==> sound_at(copies, spare, j)
    &&& match error {
        BatchError::InvalidSpare => copies[i].mentions(spare),
        BatchError::DuplicateDestination(register) => {
            &&& !copies[i].mentions(spare)
            &&& repeats_destination(copies, i)
            &&& register == copies[i].destination
        },
    }
}

/// Some copy reads or writes `spare`.
pub open spec fn uses_spare(copies: Seq<RegisterCopy>, spare: Register) -> bool {
    exists|i: int| 0 <= i < copies.len() && (#[trigger] copies[i]).mentions(spare)
}

/// Two copies write the same register.
pub open spec fn repeats_a_destination(copies: Seq<RegisterCopy>) -> bool {
    exists|i: int, j: int|
        0 <= i < j < copies.len() && (#[trigger] copies[i]).destination == (
        #[trigger] copies[j]).destination
}

/// The batches that are not valid are those in which a copy reads or writes
/// the spare register and those in which two copies write one register.
pub proof fn lemma_invalid_batches(copies: Seq<RegisterCopy>, spare: Register)
    ensures
        !valid_batch(copies, spare) <==> uses_spare(copies, spare) || repeats_a_destination(copies),
{
    if uses_spare(copies, spare) {
        let i = choose|i: int| 0 <= i < copies.len() && (#[trigger] copies[i]).mentions(spare);
        assert(copies[i].mentions(spare));
        assert(!avoids(copies, spare));
    }
    if repeats_a_destination(copies) {
        let (i, j) = choose|i: int, j: int|
            0 <= i < j < copies.len() && (#[trigger] copies[i]).destination == (
            #[trigger] copies[j]).destination;
        assert(copies[i].destination == copies[j].destination);
        assert(!distinct_destinations(copies));
    }
}

/// A list in which every copy is sound is a valid batch, and the other way
/// round.
pub proof fn lemma_valid_iff_sound(copies: Seq<RegisterCopy>, spare: Register)
    ensures
        valid_batch(copies, spare) <==> forall|i: int|
            0 <= i < copies.len() ==> sound_at(copies, spare, i),
{
    if forall|i: int| 0 <= i < copies.len() ==> sound_at(copies, spare, i) {
        assert forall|i: int| 0 <= i < copies.len() implies !(#[trigger] copies[i]).mentions(
            spare,
        ) by {
            assert(sound_at(copies, spare, i));
        }
        assert forall|i: int, j: int| 0 <= i < j < copies.len() implies (
        #[trigger] copies[i]).destination != (#[trigger] copies[j]).destination by {
            assert(sound_at(copies, spare, j));
        }
    }
}

/// Checks that the copies form a valid batch for `spare`. A list in which a
/// copy reads or writes `spare`, or in which two copies write one register,
/// is refused; the error is that of the first copy that breaks a rule.
pub fn validate_batch(copies: &[RegisterCopy], spare: Register) -> (verdict: Result<
    (),
    BatchError,
>)
    ensures
        verdict is Ok <==> valid_batch(copies@, spare),
        verdict is Err <==> uses_spare(copies@, spare) || repeats_a_destination(copies@),
        verdict matches Err(error) ==> exists|i: int| first_offence(copies@, spare, i, error),
{
    proof {
        lemma_invalid_batches(copies@, spare);
    }
    let mut written: HashSet<u32> = HashSet::new();
    let mut i: usize = 0;
    while i < copies.len()
        invariant
            i <= copies.len(),
            forall|j: int| 0 <= j < i ==> sound_at(copies@, spare, j),
            forall|r: u32|
                written@.contains(r) <==> exists|j: int|
                    0 <= j < i && (#[trigger] copies@[j]).destination == Register(r),
        decreases copies.len() - i,
    {
        let copy = copies[i];
        if copy.uses(spare) {
            proof {
                assert(first_offence(copies@, spare, i as int, BatchError::InvalidSpare));
            }
            return Err(BatchError::InvalidSpare);
        }
        let fresh = written.insert(copy.destination.0);
        if !fresh {
            proof {
                let j = choose|j: int|
                    0 <= j < i && (#[trigger] copies@[j]).destination == Register(
                        copy.destination.0,
                    );
                assert(copies@[j].destination == copies@[i as int].destination);
                assert(first_offence(
                    copies@,
                    spare,
                    i as int,
                    BatchError::DuplicateDestination(copy.destination),
                ));
            }
            return Err(BatchError::DuplicateDestination(copy.destination));
        }
        proof {
            assert forall|r: u32|
                written@.contains(r) <==> exists|j: int|
                    0 <= j < i + 1 && (#[trigger] copies@[j]).destination == Register(r) by {
            }
        }
        i += 1;
    }
    proof {
        lemma_valid_iff_sound(copies@, spare);
    }
    Ok(())
}

} // verus!
