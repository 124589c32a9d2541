use parallel_copy::{
    execute_parallel, execute_sequential, sequentialize_register, try_sequentialize_register,
    validate_batch, BatchError, Register, RegisterCopy,
};
use rand::seq::SliceRandom;
use rand::Rng;
use std::collections::HashMap;

fn copy(source: u32, destination: u32) -> RegisterCopy {
    RegisterCopy {
        source: Register(source),
        destination: Register(destination),
    }
}

// The values by register instead of by register number.
fn by_register(values: HashMap<u32, u32>) -> HashMap<Register, u32> {
    values
        .into_iter()
        .map(|(number, value)| (Register(number), value))
        .collect()
}

#[test]
fn test_execute_sequential() {
    let copies = vec![
        RegisterCopy {
            source: Register(1),
            destination: Register(2),
        },
        RegisterCopy {
            source: Register(3),
            destination: Register(2),
        },
        RegisterCopy {
            source: Register(2),
            destination: Register(4),
        },
        RegisterCopy {
            source: Register(2),
            destination: Register(1),
        },
        RegisterCopy {
            source: Register(5),
            destination: Register(3),
        },
    ];
    let result = by_register(execute_sequential(&copies));
    let expected: HashMap<Register, u32> = vec![
        (Register(1), 3),
        (Register(2), 3),
        (Register(3), 5),
        (Register(4), 3),
    ]
    .into_iter()
    .collect();
    assert_eq!(result, expected);
}

#[test]
fn test_execute_sequential_2() {
    let copies = vec![
        RegisterCopy {
            source: Register(1),
            destination: Register(4),
        },
        RegisterCopy {
            source: Register(3),
            destination: Register(1),
        },
        RegisterCopy {
            source: Register(2),
            destination: Register(3),
        },
        RegisterCopy {
            source: Register(1),
            destination: Register(2),
        },
    ];
    let result = by_register(execute_sequential(&copies));
    assert_eq!(
        result,
        Vec::from_iter([
            (Register(1), 3),
            (Register(2), 3),
            (Register(3), 2),
            (Register(4), 1),
        ])
        .into_iter()
        .collect::<HashMap<_, _>>()
    );
}

#[test]
fn test_sequentialize_register_simple() {
    let copies = vec![
        RegisterCopy {
            source: Register(1),
            destination: Register(2),
        },
        RegisterCopy {
            source: Register(2),
            destination: Register(3),
        },
        RegisterCopy {
            source: Register(3),
            destination: Register(4),
        },
    ];

    let spare = Register(5);
    let result = sequentialize_register(&copies, spare);
    let sequential_result = by_register(execute_sequential(&result));
    assert_eq!(
        sequential_result,
        Vec::from_iter([(Register(2), 1), (Register(3), 2), (Register(4), 3),])
            .into_iter()
            .collect::<HashMap<_, _>>()
    );
}

#[test]
fn test_sequentialize_cycle() {
    let copies = vec![
        RegisterCopy {
            source: Register(1),
            destination: Register(2),
        },
        RegisterCopy {
            source: Register(2),
            destination: Register(3),
        },
        RegisterCopy {
            source: Register(3),
            destination: Register(1),
        },
    ];
    let spare = Register(4);
    let result = sequentialize_register(&copies, spare);
    // print result for debugging
    println!("{:?}", result);
    let mut sequential_result = by_register(execute_sequential(&result));
    assert!(matches!(sequential_result.remove(&spare), Some(_)));
    assert_eq!(
        sequential_result,
        Vec::from_iter([(Register(2), 1), (Register(3), 2), (Register(1), 3),])
            .into_iter()
            .collect::<HashMap<_, _>>()
    );
}

#[test]
fn test_sequentialize_with_fanin() {
    let copies = vec![
        RegisterCopy {
            source: Register(1),
            destination: Register(2),
        },
        RegisterCopy {
            source: Register(1),
            destination: Register(3),
        },
        RegisterCopy {
            source: Register(2),
            destination: Register(1),
        },
    ];
    let spare = Register(4);
    let result = sequentialize_register(&copies, spare);
    let sequential_result = by_register(execute_sequential(&result));
    assert_eq!(
        sequential_result,
        Vec::from_iter([(Register(2), 1), (Register(3), 1), (Register(1), 2)])
            .into_iter()
            .collect::<HashMap<_, _>>()
    );
}

#[test]
fn test_sequentialize_rand() {
    let mut rng = rand::rng();
    for _ in 0..1000 {
        let num_copies = 100;
        let mut copies = Vec::new();
        for i in 0..num_copies {
            let dest = Register(i);
            let src = Register(rng.random_range(0..num_copies));
            if src == dest {
                continue; // Skip self-copies
            }
            copies.push(RegisterCopy {
                source: src,
                destination: dest,
            });
        }
        // shuffle the copies.
        copies.shuffle(&mut rng);
        let spare = Register(num_copies);
        assert_eq!(validate_batch(&copies, spare), Ok(()));
        let result = sequentialize_register(&copies, spare);
        let mut sequential_result = by_register(execute_sequential(&result));
        // remove the spare register from the result.
        sequential_result.remove(&spare);
        assert_eq!(sequential_result, by_register(execute_parallel(&copies)));
    }
}

#[test]
fn chain_is_emitted_from_its_end_without_the_spare() {
    let copies = vec![copy(1, 2), copy(2, 3), copy(3, 4)];
    let result = sequentialize_register(&copies, Register(5));
    assert_eq!(result, vec![copy(3, 4), copy(2, 3), copy(1, 2)]);
}

#[test]
fn cycle_is_broken_once_at_its_least_register() {
    let copies = vec![copy(1, 2), copy(2, 3), copy(3, 1)];
    let result = sequentialize_register(&copies, Register(4));
    assert_eq!(
        result,
        vec![copy(1, 4), copy(3, 1), copy(2, 3), copy(4, 2)]
    );
    let spills = result
        .iter()
        .filter(|c| c.destination == Register(4))
        .count();
    assert_eq!(spills, 1);
}

#[test]
fn fan_out_resolves_a_cycle_without_the_spare() {
    let copies = vec![copy(1, 2), copy(1, 3), copy(2, 1)];
    let result = sequentialize_register(&copies, Register(4));
    assert_eq!(result, vec![copy(1, 3), copy(2, 1), copy(3, 2)]);
}

#[test]
fn two_cycles_share_the_spare() {
    let copies = vec![copy(1, 2), copy(2, 1), copy(7, 8), copy(8, 7)];
    let spare = Register(0);
    let result = sequentialize_register(&copies, spare);
    assert_eq!(
        result,
        vec![
            copy(1, 0),
            copy(2, 1),
            copy(0, 2),
            copy(7, 0),
            copy(8, 7),
            copy(0, 8)
        ]
    );
    let mut values = by_register(execute_sequential(&result));
    values.remove(&spare);
    assert_eq!(values, by_register(execute_parallel(&copies)));
}

#[test]
fn self_copy_goes_through_the_spare() {
    let copies = vec![copy(3, 3)];
    let result = sequentialize_register(&copies, Register(9));
    assert_eq!(result, vec![copy(3, 9), copy(9, 3)]);
}

#[test]
fn empty_batch_gives_no_copy() {
    let result = sequentialize_register(&[], Register(0));
    assert!(result.is_empty());
}

#[test]
fn output_length_is_batch_length_plus_broken_cycles() {
    // No cycle: as many copies as the batch has.
    let tree = vec![copy(1, 2), copy(1, 3), copy(3, 4), copy(5, 6)];
    assert_eq!(sequentialize_register(&tree, Register(0)).len(), 4);
    // One cycle of four.
    let ring = vec![copy(1, 2), copy(2, 3), copy(3, 4), copy(4, 1)];
    assert_eq!(sequentialize_register(&ring, Register(0)).len(), 5);
    // A cycle with a way out needs no spare.
    let ring_with_exit = vec![copy(1, 2), copy(2, 1), copy(2, 5)];
    assert_eq!(sequentialize_register(&ring_with_exit, Register(0)).len(), 3);
}

#[test]
fn order_of_the_batch_does_not_show() {
    let spare = Register(9);
    let one = vec![copy(1, 2), copy(2, 3), copy(3, 1), copy(3, 5), copy(3, 6)];
    let other = vec![copy(3, 6), copy(3, 1), copy(3, 5), copy(2, 3), copy(1, 2)];
    assert_eq!(
        sequentialize_register(&one, spare),
        sequentialize_register(&other, spare)
    );
}

#[test]
fn ready_copies_are_emitted_by_destination_whatever_their_order() {
    let spare = Register(9);
    let one = vec![copy(1, 2), copy(3, 4)];
    let other = vec![copy(3, 4), copy(1, 2)];
    assert_eq!(sequentialize_register(&one, spare), vec![copy(3, 4), copy(1, 2)]);
    assert_eq!(sequentialize_register(&other, spare), vec![copy(3, 4), copy(1, 2)]);
    let fan = vec![copy(1, 2), copy(1, 3)];
    let fan_turned = vec![copy(1, 3), copy(1, 2)];
    assert_eq!(sequentialize_register(&fan, Register(4)), vec![copy(1, 3), copy(1, 2)]);
    assert_eq!(
        sequentialize_register(&fan_turned, Register(4)),
        vec![copy(1, 3), copy(1, 2)]
    );
}

#[test]
fn every_ordering_of_a_batch_gives_the_same_list() {
    let mut rng = rand::rng();
    for _ in 0..200 {
        let registers = 30;
        let mut copies = Vec::new();
        for i in 0..registers {
            copies.push(copy(rng.random_range(0..registers), i));
        }
        let spare = Register(registers);
        let expected = sequentialize_register(&copies, spare);
        for _ in 0..5 {
            copies.shuffle(&mut rng);
            assert_eq!(sequentialize_register(&copies, spare), expected);
        }
    }
}

#[test]
fn list_writes_the_destinations_of_the_batch_and_the_spare_only() {
    let mut rng = rand::rng();
    for _ in 0..200 {
        let registers = 20;
        let mut copies = Vec::new();
        for i in 0..registers {
            if rng.random_range(0..3) > 0 {
                copies.push(copy(rng.random_range(0..registers), i));
            }
        }
        let spare = Register(registers);
        let result = sequentialize_register(&copies, spare);
        for written in &result {
            assert!(
                written.destination == spare
                    || copies.iter().any(|c| c.destination == written.destination)
            );
        }
        for c in &copies {
            assert!(result.iter().any(|w| w.destination == c.destination));
        }
    }
}

#[test]
fn spare_as_source_is_refused() {
    let copies = vec![copy(1, 2), copy(4, 3)];
    assert_eq!(
        try_sequentialize_register(&copies, Register(4)),
        Err(BatchError::InvalidSpare)
    );
    assert_eq!(validate_batch(&copies, Register(4)), Err(BatchError::InvalidSpare));
}

#[test]
fn spare_as_destination_is_refused() {
    let copies = vec![copy(1, 4), copy(2, 3)];
    assert_eq!(
        try_sequentialize_register(&copies, Register(4)),
        Err(BatchError::InvalidSpare)
    );
}

#[test]
fn repeated_destination_is_refused() {
    let copies = vec![copy(1, 2), copy(3, 2)];
    assert_eq!(
        try_sequentialize_register(&copies, Register(4)),
        Err(BatchError::DuplicateDestination(Register(2)))
    );
    assert_eq!(
        validate_batch(&copies, Register(4)),
        Err(BatchError::DuplicateDestination(Register(2)))
    );
}

#[test]
fn first_broken_rule_is_reported() {
    // The repeated destination comes before the copy that reads the spare.
    let copies = vec![copy(1, 2), copy(3, 2), copy(4, 5)];
    assert_eq!(
        validate_batch(&copies, Register(4)),
        Err(BatchError::DuplicateDestination(Register(2)))
    );
    // The copy that writes the spare comes first.
    let copies = vec![copy(1, 4), copy(1, 2), copy(3, 2)];
    assert_eq!(validate_batch(&copies, Register(4)), Err(BatchError::InvalidSpare));
    // One copy breaks both rules: the spare is reported.
    let copies = vec![copy(1, 2), copy(2, 2)];
    assert_eq!(validate_batch(&copies, Register(2)), Err(BatchError::InvalidSpare));
}

#[test]
fn valid_batch_is_accepted_and_sequentialized() {
    let copies = vec![copy(1, 2), copy(2, 1)];
    assert_eq!(validate_batch(&copies, Register(3)), Ok(()));
    assert_eq!(
        try_sequentialize_register(&copies, Register(3)),
        Ok(vec![copy(1, 3), copy(2, 1), copy(3, 2)])
    );
}

#[test]
fn parallel_execution_reads_initial_values() {
    let copies = vec![copy(1, 2), copy(2, 3), copy(3, 1)];
    let values = by_register(execute_parallel(&copies));
    let expected: HashMap<Register, u32> =
        vec![(Register(2), 1), (Register(3), 2), (Register(1), 3)]
            .into_iter()
            .collect();
    assert_eq!(values, expected);
}

#[test]
fn sequential_execution_sees_earlier_writes() {
    let copies = vec![copy(1, 2), copy(2, 3)];
    let values = execute_sequential(&copies);
    assert_eq!(values.get(&2), Some(&1));
    assert_eq!(values.get(&3), Some(&1));
    assert_eq!(values.get(&1), None);
}

#[test]
fn copy_uses_its_two_registers() {
    let c = copy(1, 2);
    assert!(c.uses(Register(1)));
    assert!(c.uses(Register(2)));
    assert!(!c.uses(Register(3)));
}
