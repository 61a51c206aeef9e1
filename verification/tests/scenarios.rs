use std::collections::VecDeque;

use gcviz::allocator::Allocator;
use gcviz::error::VMError;
use gcviz::free_list::FreeList;
use gcviz::gc::init_collector;
use gcviz::gc::mark_compact::CompactAlgorithm;
use gcviz::gc::GCEvent;
use gcviz::gc::GCType;
use gcviz::gc::GarbageCollector;
use gcviz::heap::Heap;
use gcviz::mutator::Mutator;
use gcviz::object::Address;
use gcviz::object::Field;
use gcviz::object::Object;
use gcviz::program::InstrResult;
use gcviz::program::Instruction;
use gcviz::rts_cfg::ProgramRuntimeConfig;
use gcviz::session::Session;
use gcviz::vm::VirtualMachine;

fn scalars(values: &[usize]) -> Object {
    Object::new(values.iter().map(|v| Field::new_scalar(*v)).collect())
}

fn run_to_end(session: &mut Session) -> Result<(), VMError> {
    while session.instr_ptr < session.program.len() {
        session.tick()?;
    }
    Ok(())
}

fn session_with(config: ProgramRuntimeConfig, program: Vec<Instruction>) -> Session {
    let mut session = Session::new(config);
    session.program = VecDeque::from(program);
    session
}

#[test]
fn test_simple() {
    let program = vec![
        Instruction::Allocate { object: scalars(&[1]), is_root: true },
        Instruction::Allocate { object: scalars(&[2]), is_root: true },
        Instruction::Allocate { object: scalars(&[3]), is_root: true },
        Instruction::Read { addr: 0 },
        Instruction::Write { addr: 0, value: 4 },
        Instruction::Read { addr: 1 },
        Instruction::Write { addr: 1, value: 5 },
        Instruction::Read { addr: 2 },
        Instruction::Write { addr: 2, value: 6 },
        Instruction::GC,
    ];
    let mut session =
        session_with(ProgramRuntimeConfig::new(10, 0, GCType::MarkSweep), program);
    assert!(run_to_end(&mut session).is_ok());
    let heap = &session.vm.heap;
    assert_eq!(heap.objects.len(), 3);
    assert_eq!(heap.free_list.to_vec(), vec![(3, 7)]);
    assert!(heap.objects.values().all(|o| !o.header.marked && o.header.fwd_addr.is_none()));
    assert_eq!(heap.roots.iter().copied().collect::<Vec<_>>(), vec![0, 1, 2]);
    assert_eq!(heap.objects[&0].fields, vec![Field::new_scalar(4)]);
    assert_eq!(heap.objects[&2].fields, vec![Field::new_scalar(6)]);
}

#[test]
fn test_could_not_allocate() {
    let program = vec![Instruction::Allocate { object: scalars(&[1, 2, 3]), is_root: true }];
    let mut session =
        session_with(ProgramRuntimeConfig::new(1, 4, GCType::MarkSweep), program);
    assert_eq!(run_to_end(&mut session), Err(VMError::AllocationError));
    assert_eq!(session.vm.heap.free_list.to_vec(), vec![(0, 1)]);
    assert!(session.vm.heap.objects.is_empty());
    assert_eq!(session.instr_ptr, 0);
}

#[test]
fn test_alignment_alloc_fail() {
    let mut heap = Heap::new(2, 2);
    heap.free_list = FreeList::new(vec![(1, 2)]);
    let result = Allocator::new().allocate(&mut heap, scalars(&[1, 2]), true);
    assert_eq!(result, Err(VMError::AllocationError));
    assert_eq!(heap.free_list.to_vec(), vec![(1, 2)]);
}

#[test]
fn test_alloc_1() {
    let mut heap = Heap::new(10, 2);
    let allocator = Allocator::new();
    let first = allocator.allocate(&mut heap, scalars(&[1, 2]), true);
    assert_eq!(first, Ok(0));
    assert_eq!(heap.roots.iter().copied().collect::<Vec<_>>(), vec![0]);
    assert_eq!(heap.free_object(0), Ok(()));
    let second = allocator.allocate(&mut heap, scalars(&[3, 4]), false);
    assert_eq!(second, Ok(0));
    assert_eq!(heap.objects.len(), 1);
    assert!(heap.roots.is_empty());
    assert_eq!(heap.free_list.to_vec(), vec![(2, 8)]);
}

#[test]
fn mark_sweep_frees_what_no_root_reaches() {
    let mut heap = Heap::new(10, 0);
    let allocator = Allocator::new();
    let root = Object::new(vec![Field::new_ref(Address::Null)]);
    assert_eq!(allocator.allocate(&mut heap, root, true), Ok(0));
    assert_eq!(allocator.allocate(&mut heap, scalars(&[7, 8]), false), Ok(1));
    let collector = init_collector(&GCType::MarkSweep);
    let (_, events) = collector.collect(&mut heap).unwrap();
    assert_eq!(heap.objects.keys().copied().collect::<Vec<_>>(), vec![0]);
    assert_eq!(heap.free_list.to_vec(), vec![(1, 9)]);
    assert_eq!(heap.roots.iter().copied().collect::<Vec<_>>(), vec![0]);
    let texts: Vec<String> = events.iter().map(|e| format!("{:?}", e)).collect();
    assert_eq!(
        texts,
        vec![
            "GCPhase { msg: \"MarkSweep: START\" }",
            "GCPhase { msg: \"Mark from roots\" }",
            "MarkObject { addr: 0, size: 1 }",
            "GCPhase { msg: \"sweep\" }",
            "FreeObject { addr: 1, size: 2 }",
            "GCPhase { msg: \"MarkSweep: END\" }",
        ]
    );
}

#[test]
fn mark_sweep_keeps_what_a_reference_reaches() {
    let mut heap = Heap::new(10, 0);
    let allocator = Allocator::new();
    let mutator = Mutator::new();
    let root = Object::new(vec![Field::new_ref(Address::Null)]);
    assert_eq!(allocator.allocate(&mut heap, root, true), Ok(0));
    assert_eq!(allocator.allocate(&mut heap, scalars(&[7]), false), Ok(1));
    assert_eq!(allocator.allocate(&mut heap, scalars(&[8]), false), Ok(2));
    assert_eq!(mutator.write(&mut heap, 0, 2), Ok(()));
    init_collector(&GCType::MarkSweep).collect(&mut heap).unwrap();
    assert_eq!(heap.objects.keys().copied().collect::<Vec<_>>(), vec![0, 2]);
    assert_eq!(heap.free_list.to_vec(), vec![(1, 1), (3, 7)]);
    assert_eq!(mutator.read(&heap, 0), Ok(8));
}

#[test]
fn lisp_2_slides_and_rewrites_references() {
    let mut heap = Heap::new(10, 0);
    let allocator = Allocator::new();
    let mutator = Mutator::new();
    let a = Object::new(vec![Field::new_scalar(1), Field::new_ref(Address::Null)]);
    assert_eq!(allocator.allocate(&mut heap, a, true), Ok(0));
    assert_eq!(allocator.allocate(&mut heap, scalars(&[2, 3]), true), Ok(2));
    assert_eq!(mutator.write(&mut heap, 1, 2), Ok(()));
    assert_eq!(allocator.allocate(&mut heap, scalars(&[4, 5]), true), Ok(4));
    assert_eq!(heap.free_object(2), Ok(()));
    let collector = init_collector(&GCType::MarkCompact(CompactAlgorithm::Lisp2));
    collector.collect(&mut heap).unwrap();
    assert_eq!(heap.objects.keys().copied().collect::<Vec<_>>(), vec![0, 2]);
    assert_eq!(heap.objects[&2].fields, vec![Field::new_scalar(4), Field::new_scalar(5)]);
    assert_eq!(heap.objects[&0].fields[1], Field::new_ref(Address::Ptr(2)));
    assert_eq!(heap.roots.iter().copied().collect::<Vec<_>>(), vec![0, 2]);
    assert_eq!(heap.free_list.to_vec(), vec![(4, 6)]);
    assert!(heap.objects.values().all(|o| !o.header.marked && o.header.fwd_addr.is_none()));
}

#[test]
fn lisp_2_follows_a_moved_target() {
    let mut heap = Heap::new(12, 0);
    let allocator = Allocator::new();
    let mutator = Mutator::new();
    assert_eq!(allocator.allocate(&mut heap, scalars(&[9, 9, 9]), false), Ok(0));
    let a = Object::new(vec![Field::new_ref(Address::Null)]);
    assert_eq!(allocator.allocate(&mut heap, a, true), Ok(3));
    assert_eq!(allocator.allocate(&mut heap, scalars(&[5, 6]), false), Ok(4));
    // an interior reference: to the second field of the object at 4
    assert_eq!(mutator.write(&mut heap, 3, 5), Ok(()));
    assert_eq!(mutator.read(&heap, 3), Ok(6));
    let collector = init_collector(&GCType::MarkCompact(CompactAlgorithm::Lisp2));
    collector.collect(&mut heap).unwrap();
    // the object at 4 is reached by an interior reference only: no base
    // leads to it, so it is not kept, and the reference stays as it was
    assert_eq!(heap.objects.keys().copied().collect::<Vec<_>>(), vec![0]);
    assert_eq!(heap.objects[&0].fields, vec![Field::new_ref(Address::Ptr(5))]);
    assert_eq!(heap.free_list.to_vec(), vec![(1, 11)]);
}

#[test]
fn lisp_2_keeps_the_alignment() {
    let mut heap = Heap::new(16, 4);
    let allocator = Allocator::new();
    assert_eq!(allocator.allocate(&mut heap, scalars(&[1]), false), Ok(0));
    assert_eq!(allocator.allocate(&mut heap, scalars(&[2, 3]), true), Ok(4));
    assert_eq!(allocator.allocate(&mut heap, scalars(&[4]), false), Ok(8));
    assert_eq!(allocator.allocate(&mut heap, scalars(&[5]), true), Ok(12));
    let collector = init_collector(&GCType::MarkCompact(CompactAlgorithm::Lisp2));
    let (_, events) = collector.collect(&mut heap).unwrap();
    assert_eq!(heap.objects.keys().copied().collect::<Vec<_>>(), vec![0, 4]);
    assert_eq!(heap.objects[&0].fields, vec![Field::new_scalar(2), Field::new_scalar(3)]);
    assert_eq!(heap.objects[&4].fields, vec![Field::new_scalar(5)]);
    assert_eq!(heap.roots.iter().copied().collect::<Vec<_>>(), vec![0, 4]);
    assert_eq!(heap.free_list.to_vec(), vec![(2, 2), (5, 11)]);
    let moves: Vec<String> = events
        .iter()
        .filter(|e| matches!(e, GCEvent::MoveObject { .. }))
        .map(|e| format!("{:?}", e))
        .collect();
    assert_eq!(
        moves,
        vec![
            "MoveObject { from: 4, to: 0, size: 2 }",
            "MoveObject { from: 12, to: 4, size: 1 }",
        ]
    );
}

#[test]
fn two_finger_fills_the_gaps_from_the_far_end() {
    let mut heap = Heap::new(10, 0);
    let allocator = Allocator::new();
    let mutator = Mutator::new();
    assert_eq!(allocator.allocate(&mut heap, scalars(&[1, 1]), false), Ok(0));
    let holder = Object::new(vec![Field::new_ref(Address::Null)]);
    assert_eq!(allocator.allocate(&mut heap, holder, true), Ok(2));
    assert_eq!(allocator.allocate(&mut heap, scalars(&[3]), false), Ok(3));
    assert_eq!(allocator.allocate(&mut heap, scalars(&[4, 5]), true), Ok(4));
    assert_eq!(mutator.write(&mut heap, 2, 5), Ok(()));
    assert_eq!(mutator.read(&heap, 2), Ok(5));
    let collector = init_collector(&GCType::MarkCompact(CompactAlgorithm::TwoFinger));
    collector.collect(&mut heap).unwrap();
    // the object at 4 has moved into the place of the dead object at 0
    assert_eq!(heap.objects.keys().copied().collect::<Vec<_>>(), vec![0, 2]);
    assert_eq!(heap.objects[&0].fields, vec![Field::new_scalar(4), Field::new_scalar(5)]);
    // the reference to its second field has followed it
    assert_eq!(heap.objects[&2].fields, vec![Field::new_ref(Address::Ptr(1))]);
    assert_eq!(mutator.read(&heap, 2), Ok(5));
    assert_eq!(heap.roots.iter().copied().collect::<Vec<_>>(), vec![0, 2]);
    assert_eq!(heap.free_list.to_vec(), vec![(3, 7)]);
}

#[test]
fn two_finger_leaves_what_does_not_fit() {
    let mut heap = Heap::new(10, 0);
    let allocator = Allocator::new();
    assert_eq!(allocator.allocate(&mut heap, scalars(&[1]), false), Ok(0));
    assert_eq!(allocator.allocate(&mut heap, scalars(&[2, 3]), true), Ok(1));
    let collector = init_collector(&GCType::MarkCompact(CompactAlgorithm::TwoFinger));
    collector.collect(&mut heap).unwrap();
    assert_eq!(heap.objects.keys().copied().collect::<Vec<_>>(), vec![1]);
    assert_eq!(heap.free_list.to_vec(), vec![(0, 1), (3, 7)]);
}

#[test]
fn two_finger_with_all_objects_alive_changes_nothing() {
    let mut heap = Heap::new(6, 0);
    let allocator = Allocator::new();
    assert_eq!(allocator.allocate(&mut heap, scalars(&[1]), true), Ok(0));
    assert_eq!(allocator.allocate(&mut heap, scalars(&[2, 3]), true), Ok(1));
    let collector = init_collector(&GCType::MarkCompact(CompactAlgorithm::TwoFinger));
    collector.collect(&mut heap).unwrap();
    assert_eq!(heap.objects.keys().copied().collect::<Vec<_>>(), vec![0, 1]);
    assert_eq!(heap.free_list.to_vec(), vec![(3, 3)]);
}

#[test]
fn a_collection_of_an_empty_heap_changes_nothing() {
    for kind in [
        GCType::MarkSweep,
        GCType::MarkCompact(CompactAlgorithm::TwoFinger),
        GCType::MarkCompact(CompactAlgorithm::Lisp2),
    ] {
        let mut heap = Heap::new(4, 2);
        init_collector(&kind).collect(&mut heap).unwrap();
        assert!(heap.objects.is_empty());
        assert_eq!(heap.free_list.to_vec(), vec![(0, 4)]);
    }
}

fn state(heap: &Heap) -> String {
    format!("{:?} {:?} {:?} {}", heap.roots, heap.objects, heap.free_list, heap.alignment)
}

#[test]
fn a_second_collection_changes_nothing() {
    for kind in [
        GCType::MarkSweep,
        GCType::MarkCompact(CompactAlgorithm::TwoFinger),
        GCType::MarkCompact(CompactAlgorithm::Lisp2),
    ] {
        let mut vm = VirtualMachine::new(2, 24, init_collector(&kind));
        let steps = vec![
            Instruction::Allocate { object: scalars(&[1, 2, 3]), is_root: false },
            Instruction::Allocate {
                object: Object::new(vec![Field::new_ref(Address::Null), Field::new_scalar(1)]),
                is_root: true,
            },
            Instruction::Allocate { object: scalars(&[4]), is_root: false },
            Instruction::Allocate { object: scalars(&[5, 6]), is_root: false },
            Instruction::Allocate { object: scalars(&[7]), is_root: true },
            Instruction::Write { addr: 4, value: 8 },
            Instruction::GC,
        ];
        for step in &steps {
            assert!(vm.tick(step).is_ok());
        }
        let once = state(&vm.heap);
        assert!(vm.tick(&Instruction::GC).is_ok());
        assert_eq!(state(&vm.heap), once);
    }
}

#[test]
fn a_compaction_keeps_the_values_that_reads_give() {
    for kind in [
        GCType::MarkCompact(CompactAlgorithm::TwoFinger),
        GCType::MarkCompact(CompactAlgorithm::Lisp2),
        GCType::MarkSweep,
    ] {
        let mut vm = VirtualMachine::new(0, 20, init_collector(&kind));
        let steps = vec![
            Instruction::Allocate { object: scalars(&[1, 2]), is_root: false },
            Instruction::Allocate {
                object: Object::new(vec![Field::new_ref(Address::Null), Field::new_scalar(3)]),
                is_root: true,
            },
            Instruction::Allocate { object: scalars(&[4]), is_root: false },
            Instruction::Allocate { object: scalars(&[5, 6]), is_root: false },
            // the root refers to the object at 5
            Instruction::Write { addr: 2, value: 5 },
        ];
        for step in &steps {
            assert!(vm.tick(step).is_ok());
        }
        let read_before = vm.mutator.read(&vm.heap, 2);
        assert_eq!(read_before, Ok(5));
        assert!(vm.tick(&Instruction::GC).is_ok());
        let root = *vm.heap.roots.iter().next().unwrap();
        assert_eq!(vm.mutator.read(&vm.heap, root), Ok(5));
        assert_eq!(vm.mutator.read(&vm.heap, root + 1), Ok(3));
        assert_eq!(vm.heap.objects.len(), 2);
    }
}

#[test]
fn a_result_carries_what_the_collection_logged() {
    let mut vm = VirtualMachine::new(0, 4, init_collector(&GCType::MarkSweep));
    assert!(vm.tick(&Instruction::Allocate { object: scalars(&[1]), is_root: false }).is_ok());
    match vm.tick(&Instruction::GC) {
        Ok(InstrResult::GC { stats: _, events }) => {
            assert_eq!(events.len(), 5);
            assert!(matches!(events[3], GCEvent::FreeObject { addr: 0, size: 1 }));
        }
        other => panic!("{:?}", other),
    }
}
