use std::collections::VecDeque;

use gcviz::allocator::Allocator;
use gcviz::error::VMError;
use gcviz::file_utils::program_file_name;
use gcviz::file_utils::program_path;
use gcviz::file_utils::snapshot_file_name;
use gcviz::file_utils::snapshot_path;
use gcviz::free_list::FreeList;
use gcviz::gc::common::move_object;
use gcviz::gc::init_collector;
use gcviz::gc::mark_compact::CompactAlgorithm;
use gcviz::gc::mark_compact::MarkCompact;
use gcviz::gc::mark_sweep::MarkSweep;
use gcviz::gc::object_marker::is_marked;
use gcviz::gc::object_marker::mark;
use gcviz::gc::object_marker::mark_from_roots;
use gcviz::gc::object_marker::unmark;
use gcviz::gc::GCEvent;
use gcviz::gc::GCType;
use gcviz::gc::GarbageCollector;
use gcviz::heap::CellStatus;
use gcviz::heap::Heap;
use gcviz::heap::MemoryCell;
use gcviz::log::Log;
use gcviz::log::LogSource;
use gcviz::log::LOG_CAPACITY;
use gcviz::mutator::Mutator;
use gcviz::object::Address;
use gcviz::object::Field;
use gcviz::object::ObjHeader;
use gcviz::object::Object;
use gcviz::program::InstrResult;
use gcviz::program::Instruction;
use gcviz::program::Malformed;
use gcviz::rts_cfg::ProgramRuntimeConfig;
use gcviz::server::Action;
use gcviz::server::Connection;
use gcviz::session::LogDestination;
use gcviz::session::Session;
use gcviz::simulator::has_scalar;
use gcviz::simulator::scalar_offsets;
use gcviz::simulator::ProgGenConfig;
use gcviz::simulator::Simulator;
use gcviz::vm::VirtualMachine;
use gcviz::wsmsg::WSMessageRequest;
use gcviz::wsmsg::WSMessageRequestType;
use gcviz::wsmsg::WSMessageResponse;

fn scalars(values: &[usize]) -> Object {
    Object::new(values.iter().map(|v| Field::new_scalar(*v)).collect())
}

fn heap_is_sound(heap: &Heap) {
    let size = heap.memory.len();
    let mut owner = vec![0usize; size];
    for (start, len) in heap.free_list.to_vec() {
        assert!(len >= 1);
        for x in start..start + len {
            owner[x] += 1;
        }
    }
    for (base, object) in &heap.objects {
        assert!(object.size() >= 1);
        if heap.alignment > 0 {
            assert_eq!(base % heap.alignment, 0);
        }
        assert!(!object.header.marked);
        assert!(object.header.fwd_addr.is_none());
        for x in *base..*base + object.size() {
            owner[x] += 1;
        }
    }
    assert!(owner.iter().all(|n| *n == 1));
    let runs = heap.free_list.to_vec();
    for pair in runs.windows(2) {
        assert!(pair[0].0 + pair[0].1 < pair[1].0);
    }
    for root in &heap.roots {
        assert!(heap.objects.contains_key(root));
    }
    let objects: usize = heap.objects.values().map(|o| o.size()).sum();
    assert_eq!(objects + heap.calc_free_memory(), size);
    assert!(heap.is_sound());
}

fn sound_heap() -> Heap {
    let mut heap = Heap::new(12, 2);
    let allocator = Allocator::new();
    assert_eq!(allocator.allocate(&mut heap, scalars(&[1, 2, 3]), true), Ok(0));
    assert_eq!(allocator.allocate(&mut heap, scalars(&[4]), false), Ok(4));
    assert!(heap.is_sound());
    heap
}

#[test]
fn a_heap_is_sound_as_long_as_nothing_is_amiss() {
    assert!(Heap::new(0, 0).is_sound());
    assert!(Heap::new(7, 3).is_sound());
    let heap = sound_heap();
    assert_eq!(heap.free_list.to_vec(), vec![(3, 1), (5, 7)]);
    assert!(heap.objects_in_order() && heap.runs_in_order() && heap.roots_are_objects());

    let mut marked = sound_heap();
    marked.objects.get_mut(&4).unwrap().header.marked = true;
    assert!(!marked.is_sound() && !marked.objects_in_order());

    let mut forwarded = sound_heap();
    forwarded.objects.get_mut(&0).unwrap().header.fwd_addr = Some(0);
    assert!(!forwarded.is_sound());

    let mut no_fields = sound_heap();
    no_fields.objects.insert(8, Object::new(vec![]));
    assert!(!no_fields.is_sound());

    let mut lost_root = sound_heap();
    lost_root.roots.insert(4);
    assert!(lost_root.is_sound());
    lost_root.roots.insert(5);
    assert!(!lost_root.is_sound() && !lost_root.roots_are_objects());

    let mut leak = sound_heap();
    leak.free_list = FreeList::new(vec![(3, 1), (6, 6)]);
    assert!(!leak.is_sound() && leak.runs_in_order());

    let mut twice = sound_heap();
    twice.free_list = FreeList::new(vec![(2, 2), (5, 7)]);
    assert!(!twice.is_sound());

    let mut touching = sound_heap();
    touching.free_list = FreeList::new(vec![(3, 1), (5, 3), (8, 4)]);
    assert!(!touching.is_sound() && !touching.runs_in_order());

    let mut empty_run = sound_heap();
    empty_run.free_list = FreeList::new(vec![(3, 1), (5, 7), (12, 0)]);
    assert!(!empty_run.is_sound());

    let mut beyond = sound_heap();
    beyond.free_list = FreeList::new(vec![(3, 1), (5, 8)]);
    assert!(!beyond.is_sound());

    let mut unaligned = sound_heap();
    let object = unaligned.objects.remove(&4).unwrap();
    unaligned.objects.insert(3, object);
    unaligned.free_list = FreeList::new(vec![(4, 8)]);
    assert!(!unaligned.is_sound());
    unaligned.alignment = 0;
    assert!(unaligned.is_sound());

    let mut overlapping = sound_heap();
    overlapping.objects.insert(2, scalars(&[9, 9]));
    overlapping.free_list = FreeList::new(vec![(5, 7)]);
    assert!(!overlapping.is_sound() && !overlapping.objects_in_order());

    let mut shorter = sound_heap();
    shorter.memory.pop();
    assert!(!shorter.is_sound());
}

#[test]
fn every_tick_leaves_a_sound_heap() {
    for kind in [
        GCType::MarkSweep,
        GCType::MarkCompact(CompactAlgorithm::TwoFinger),
        GCType::MarkCompact(CompactAlgorithm::Lisp2),
    ] {
        let mut vm = VirtualMachine::new(4, 64, init_collector(&kind));
        let steps = vec![
            Instruction::Allocate { object: scalars(&[1, 2, 3]), is_root: false },
            Instruction::Allocate {
                object: Object::new(vec![Field::new_ref(Address::Null)]),
                is_root: true,
            },
            Instruction::Allocate { object: scalars(&[4, 5, 6, 7, 8]), is_root: true },
            Instruction::Allocate { object: scalars(&[9]), is_root: false },
            Instruction::Write { addr: 4, value: 16 },
            Instruction::Read { addr: 4 },
            Instruction::GC,
            Instruction::Allocate { object: scalars(&[1, 1]), is_root: false },
            Instruction::Read { addr: 0 },
            Instruction::GC,
        ];
        for step in &steps {
            let _ = vm.tick(step);
            heap_is_sound(&vm.heap);
        }
    }
}

#[test]
fn an_allocation_is_aligned() {
    let mut heap = Heap::new(32, 8);
    heap.free_list = FreeList::new(vec![(3, 29)]);
    let at = Allocator::new().allocate(&mut heap, scalars(&[1, 2]), false);
    assert_eq!(at, Ok(8));
    assert_eq!(heap.free_list.to_vec(), vec![(3, 5), (10, 22)]);
}

#[test]
fn an_address_is_rounded_up_to_the_alignment() {
    let heap = Heap::new(0, 4);
    assert_eq!(heap.aligned_position(0), Some(0));
    assert_eq!(heap.aligned_position(5), Some(8));
    assert_eq!(heap.aligned_position(8), Some(8));
    assert_eq!(heap.aligned_position(usize::MAX), None);
    let plain = Heap::new(0, 0);
    assert_eq!(plain.aligned_position(5), Some(5));
    let odd = Heap::new(0, 3);
    assert_eq!(odd.aligned_position(7), Some(9));
}

#[test]
fn an_object_without_fields_is_refused() {
    let mut heap = Heap::new(4, 0);
    let refused = Allocator::new().allocate(&mut heap, Object::new(vec![]), true);
    assert_eq!(refused, Err(VMError::AllocationError));
    assert_eq!(heap.free_list.to_vec(), vec![(0, 4)]);
    assert!(heap.roots.is_empty());
}

#[test]
fn a_placed_object_has_a_clean_header() {
    let mut heap = Heap::new(4, 0);
    let mut object = scalars(&[1]);
    object.header.marked = true;
    object.header.fwd_addr = Some(3);
    assert_eq!(Allocator::new().allocate(&mut heap, object, false), Ok(0));
    assert!(!heap.objects[&0].header.marked);
    assert_eq!(heap.objects[&0].header.fwd_addr, None);
}

#[test]
fn a_heap_without_cells_has_no_free_run() {
    let heap = Heap::new(0, 0);
    assert!(heap.free_list.to_vec().is_empty());
    assert_eq!(heap.calc_free_memory(), 0);
}

#[test]
fn what_is_written_is_read() {
    let mut heap = Heap::new(8, 0);
    let mutator = Mutator::new();
    assert_eq!(Allocator::new().allocate(&mut heap, scalars(&[1, 2, 3]), true), Ok(0));
    assert_eq!(mutator.write(&mut heap, 1, 42), Ok(()));
    assert_eq!(mutator.read(&heap, 1), Ok(42));
    assert_eq!(mutator.read(&heap, 0), Ok(1));
}

#[test]
fn a_write_to_a_reference_makes_it_refer_to_the_value() {
    let mut heap = Heap::new(8, 0);
    let mutator = Mutator::new();
    let holder = Object::new(vec![Field::new_ref(Address::Null), Field::new_scalar(9)]);
    assert_eq!(Allocator::new().allocate(&mut heap, holder, true), Ok(0));
    assert_eq!(mutator.write(&mut heap, 0, 1), Ok(()));
    assert_eq!(heap.objects[&0].fields[0], Field::new_ref(Address::Ptr(1)));
    assert_eq!(mutator.read(&heap, 0), Ok(9));
    // the value is not looked at: a later read may fault
    assert_eq!(mutator.write(&mut heap, 0, 7), Ok(()));
    assert_eq!(mutator.read(&heap, 0), Err(VMError::SegmentationFault));
}

#[test]
fn a_read_outside_every_object_is_a_segmentation_fault() {
    let mut heap = Heap::new(8, 0);
    assert_eq!(Allocator::new().allocate(&mut heap, scalars(&[1]), true), Ok(0));
    let mutator = Mutator::new();
    assert_eq!(mutator.read(&heap, 1), Err(VMError::SegmentationFault));
    assert_eq!(mutator.write(&mut heap, 5, 1), Err(VMError::SegmentationFault));
    assert_eq!(heap.objects[&0].fields, vec![Field::new_scalar(1)]);
}

#[test]
fn a_read_of_a_null_reference_says_where() {
    let mut heap = Heap::new(300, 0);
    heap.free_list = FreeList::new(vec![(255, 45)]);
    let holder = Object::new(vec![Field::new_ref(Address::Null)]);
    assert_eq!(Allocator::new().allocate(&mut heap, holder, true), Ok(255));
    let got = Mutator::new().read(&heap, 255);
    assert_eq!(
        got,
        Err(VMError::NullPointerException(
            "Attempted to dereference NULL address at 0xFF".to_string()
        ))
    );
    assert_eq!(
        got.unwrap_err().message(),
        "Null pointer exception: Attempted to dereference NULL address at 0xFF"
    );
}

#[test]
fn a_read_in_a_circle_ends() {
    let mut heap = Heap::new(4, 0);
    let allocator = Allocator::new();
    let mutator = Mutator::new();
    let a = Object::new(vec![Field::new_ref(Address::Null)]);
    let b = Object::new(vec![Field::new_ref(Address::Null)]);
    assert_eq!(allocator.allocate(&mut heap, a, true), Ok(0));
    assert_eq!(allocator.allocate(&mut heap, b, true), Ok(1));
    assert_eq!(mutator.write(&mut heap, 0, 1), Ok(()));
    assert_eq!(mutator.write(&mut heap, 1, 0), Ok(()));
    assert_eq!(mutator.read(&heap, 0), Err(VMError::SegmentationFault));
    assert_eq!(mutator.read_rec(&heap, 0, 0), Err(VMError::SegmentationFault));
}

#[test]
fn a_read_follows_as_many_references_as_it_may() {
    let mut heap = Heap::new(4, 0);
    let allocator = Allocator::new();
    let mutator = Mutator::new();
    let a = Object::new(vec![Field::new_ref(Address::Null)]);
    assert_eq!(allocator.allocate(&mut heap, a, true), Ok(0));
    assert_eq!(allocator.allocate(&mut heap, scalars(&[5]), true), Ok(1));
    assert_eq!(mutator.write(&mut heap, 0, 1), Ok(()));
    assert_eq!(mutator.read_rec(&heap, 0, 1), Ok(5));
    assert_eq!(mutator.read_rec(&heap, 0, 0), Err(VMError::SegmentationFault));
    assert_eq!(mutator.read_rec(&heap, 1, 0), Ok(5));
}

#[test]
fn every_error_has_its_text() {
    assert_eq!(VMError::AllocationError.message(), "Allocation error");
    assert_eq!(VMError::DeallocationError.message(), "Deallocation error");
    assert_eq!(VMError::SegmentationFault.message(), "Segmentation fault");
    assert_eq!(
        VMError::NullPointerException("x".to_string()).message(),
        "Null pointer exception: x"
    );
    assert_eq!(VMError::GCError.message(), "Garbage collector error");
    assert_eq!(VMError::UnknownError.message(), "UnknownError error");
}

#[test]
fn every_error_has_its_label() {
    assert_eq!(VMError::AllocationError.label(), "AllocationError");
    assert_eq!(VMError::DeallocationError.label(), "DeallocationError");
    assert_eq!(VMError::SegmentationFault.label(), "SegmentationFault");
    assert_eq!(VMError::GCError.label(), "GCError");
    assert_eq!(VMError::UnknownError.label(), "UnknownError");
    let error = VMError::NullPointerException("at \"0x1\"".to_string());
    assert_eq!(error.label(), format!("{:?}", error));
    assert_eq!(error.label(), "NullPointerException(\"at \\\"0x1\\\"\")");
}

#[test]
fn a_null_reference_is_logged_with_its_place() {
    let mut session = Session::new(ProgramRuntimeConfig::new(4, 0, GCType::MarkSweep));
    session.log_dest = LogDestination::EventStream;
    session.program = VecDeque::from(vec![
        Instruction::Allocate {
            object: Object::new(vec![Field::new_ref(Address::Null)]),
            is_root: true,
        },
        Instruction::Read { addr: 0 },
    ]);
    assert!(session.tick().is_ok());
    assert!(session.tick().is_err());
    assert_eq!(
        session.logs.back().unwrap().msg,
        "NullPointerException(\"Attempted to dereference NULL address at 0x0\")"
    );
}

#[test]
fn freeing_what_is_not_there_is_a_deallocation_error() {
    let mut heap = Heap::new(8, 0);
    assert_eq!(heap.free_object(3), Err(VMError::DeallocationError));
    assert_eq!(heap.free_list.to_vec(), vec![(0, 8)]);
}

#[test]
fn an_object_moves_only_into_free_cells() {
    let mut heap = Heap::new(8, 0);
    let allocator = Allocator::new();
    assert_eq!(allocator.allocate(&mut heap, scalars(&[1, 2]), true), Ok(0));
    assert_eq!(allocator.allocate(&mut heap, scalars(&[3, 4]), false), Ok(2));
    assert_eq!(heap.move_object(5, 0), Err(VMError::SegmentationFault));
    assert_eq!(heap.move_object(0, 1), Err(VMError::AllocationError));
    assert_eq!(heap.objects.keys().copied().collect::<Vec<_>>(), vec![0, 2]);
    assert_eq!(heap.free_list.to_vec(), vec![(4, 4)]);
    assert_eq!(heap.move_object(0, 5), Ok(()));
    assert_eq!(heap.objects.keys().copied().collect::<Vec<_>>(), vec![2, 5]);
    assert_eq!(heap.roots.iter().copied().collect::<Vec<_>>(), vec![5]);
    assert_eq!(heap.free_list.to_vec(), vec![(0, 2), (4, 1), (7, 1)]);
    // into cells that are partly its own
    assert_eq!(heap.move_object(5, 6), Ok(()));
    assert_eq!(heap.free_list.to_vec(), vec![(0, 2), (4, 2)]);
    assert_eq!(heap.move_object(2, usize::MAX), Err(VMError::AllocationError));
}

#[test]
fn a_logged_move_is_a_move() {
    let mut heap = Heap::new(8, 0);
    assert_eq!(Allocator::new().allocate(&mut heap, scalars(&[1, 2]), true), Ok(0));
    let mut log = Vec::new();
    assert!(!move_object(&mut heap, &mut log, 3, 5));
    assert!(log.is_empty());
    assert!(move_object(&mut heap, &mut log, 0, 4));
    assert!(matches!(log[0], GCEvent::MoveObject { from: 0, to: 4, size: 2 }));
    assert_eq!(heap.objects.keys().copied().collect::<Vec<_>>(), vec![4]);
}

#[test]
fn the_cells_are_redrawn_from_the_objects() {
    let mut heap = Heap::new(6, 0);
    assert_eq!(Allocator::new().allocate(&mut heap, scalars(&[1, 2]), true), Ok(0));
    heap.memory[5] = MemoryCell::new(CellStatus::Marked);
    heap.redraw_memory();
    let shown: Vec<CellStatus> = heap.memory.iter().map(|c| c.status).collect();
    assert_eq!(
        shown,
        vec![
            CellStatus::Allocated,
            CellStatus::Allocated,
            CellStatus::Free,
            CellStatus::Free,
            CellStatus::Free,
            CellStatus::Free,
        ]
    );
}

#[test]
fn the_runs_come_in_the_order_of_their_starts() {
    let list = FreeList::new(vec![(9, 1), (1, 2), (5, 3), (1, 1)]);
    let mut walk = list.iter();
    assert_eq!(walk.next(), Some((1, 1)));
    assert_eq!(walk.next(), Some((5, 3)));
    assert_eq!(walk.next(), Some((9, 1)));
    assert_eq!(walk.next(), None);
    assert_eq!(walk.next(), None);
}

#[test]
fn a_run_is_carved_out_of_its_block() {
    let mut list = FreeList::new(vec![(0, 4), (10, 10)]);
    assert_eq!(list.run_holding(12, 4), Some((10, 10)));
    assert_eq!(list.run_holding(2, 4), None);
    list.carve(10, 10, 12, 16);
    assert_eq!(list.to_vec(), vec![(0, 4), (10, 2), (16, 4)]);
    list.insert(4, 6);
    assert_eq!(list.to_vec(), vec![(0, 12), (16, 4)]);
}

#[test]
fn overlapping_runs_merge_to_the_later_end() {
    let mut list = FreeList::new(vec![(1, 10), (3, 2)]);
    list.merge_adjacent_blocks();
    assert_eq!(list.to_vec(), vec![(1, 10)]);
    let mut empty_run = FreeList::new(vec![(1, 3), (4, 0), (6, 0)]);
    empty_run.merge_adjacent_blocks();
    assert_eq!(empty_run.to_vec(), vec![(1, 3), (6, 0)]);
}

#[test]
fn marking_walks_the_references() {
    let mut heap = Heap::new(8, 0);
    let allocator = Allocator::new();
    let mutator = Mutator::new();
    let holder = Object::new(vec![Field::new_ref(Address::Null), Field::new_ref(Address::Null)]);
    assert_eq!(allocator.allocate(&mut heap, holder, true), Ok(0));
    assert_eq!(allocator.allocate(&mut heap, scalars(&[1]), false), Ok(2));
    assert_eq!(allocator.allocate(&mut heap, scalars(&[2]), false), Ok(3));
    assert_eq!(mutator.write(&mut heap, 0, 3), Ok(()));
    assert_eq!(mutator.write(&mut heap, 1, 0), Ok(()));
    let mut log = Vec::new();
    mark_from_roots(&mut heap, &mut log);
    assert!(is_marked(&heap, 0));
    assert!(!is_marked(&heap, 2));
    assert!(is_marked(&heap, 3));
    assert!(!is_marked(&heap, 7));
    assert_eq!(log.len(), 2);
    unmark(&mut heap, 3);
    assert!(!is_marked(&heap, 3));
    let mut more = Vec::new();
    mark(&2, &mut heap, &mut more);
    assert!(is_marked(&heap, 2));
    assert!(matches!(more[0], GCEvent::MarkObject { addr: 2, size: 1 }));
    assert_eq!(more.len(), 1);
}

#[test]
fn a_collector_knows_its_kind() {
    assert_eq!(MarkSweep::new().ty(), GCType::MarkSweep);
    assert_eq!(MarkCompact::default().ty(), GCType::MarkCompact(CompactAlgorithm::TwoFinger));
    let lisp = init_collector(&GCType::MarkCompact(CompactAlgorithm::Lisp2));
    assert_eq!(lisp.ty(), GCType::MarkCompact(CompactAlgorithm::Lisp2));
    assert_eq!(lisp.new_instance().ty(), lisp.ty());
}

#[test]
fn an_object_is_shown_with_its_size_and_fields() {
    let object = Object::new(vec![
        Field::new_scalar(12),
        Field::new_ref(Address::Null),
        Field::new_ref(Address::Ptr(305)),
    ]);
    assert_eq!(object.text(), "Object [size: 3] [12, (Null), (305)]");
    assert_eq!(Object::new(vec![]).text(), "Object [size: 0] []");
    assert_eq!(Field::new_scalar(0).text(), "0");
    assert_eq!(Address::Ptr(10).text(), "10");
    assert_eq!(LogSource::ALLOC.name(), "ALLOC");
}

#[test]
fn a_random_object_has_one_to_ten_small_fields() {
    for _ in 0..200 {
        let object = Object::random();
        assert!(1 <= object.size() && object.size() <= 10);
        assert!(!object.header.marked);
        for field in &object.fields {
            match field {
                Field::Ref { addr } => assert_eq!(*addr, Address::Null),
                Field::Scalar { value } => assert!(*value <= 9),
            }
        }
    }
}

#[test]
fn a_session_runs_its_program_and_logs_it() {
    let mut session = Session::new(ProgramRuntimeConfig::new(300, 0, GCType::MarkSweep));
    session.program = VecDeque::from(vec![
        Instruction::Allocate { object: scalars(&[7, 8]), is_root: true },
        Instruction::Read { addr: 1 },
        Instruction::Write { addr: 0, value: 26 },
        Instruction::GC,
    ]);
    assert!(matches!(session.tick(), Ok(InstrResult::Allocate { addr: 0, .. })));
    assert_eq!(session.logs.back().unwrap().msg, "Object [size: 2] [7, 8] at 0x0");
    assert_eq!(session.logs.back().unwrap().source, LogSource::ALLOC);
    assert_eq!(session.logs.back().unwrap().frame_id, Some(0));
    assert_eq!(session.vm.heap.memory[0].status, CellStatus::Allocated);
    assert_eq!(session.vm.heap.memory[1].status, CellStatus::Allocated);
    assert_eq!(session.vm.heap.memory[2].status, CellStatus::Free);
    assert!(matches!(session.tick(), Ok(InstrResult::Read { addr: 1, value: 8 })));
    assert_eq!(session.logs.back().unwrap().msg, "Read value from 0x1. Value: 8");
    assert_eq!(session.vm.heap.memory[1].status, CellStatus::Used);
    assert!(matches!(session.tick(), Ok(InstrResult::Write { addr: 0, value: 26 })));
    assert_eq!(session.logs.back().unwrap().msg, "Write value 26 to 0x0");
    assert_eq!(session.logs.back().unwrap().source, LogSource::MUT);
    assert!(matches!(session.tick(), Ok(InstrResult::GC { .. })));
    assert_eq!(session.logs.back().unwrap().msg, "Collect garbage. Stats: GCStats");
    assert_eq!(session.logs.back().unwrap().frame_id, Some(3));
    assert_eq!(session.instr_ptr, 4);
    assert_eq!(session.logs.len(), 4);
    assert!(matches!(session.tick(), Err(VMError::UnknownError)));
    assert_eq!(session.instr_ptr, 4);
    assert_eq!(session.logs.len(), 4);
}

#[test]
fn a_failed_instruction_stays_where_it_is() {
    let mut session = Session::new(ProgramRuntimeConfig::new(4, 0, GCType::MarkSweep));
    session.program = VecDeque::from(vec![Instruction::Read { addr: 3 }]);
    assert_eq!(session.log_dest, LogDestination::Stdout);
    assert!(matches!(session.tick(), Err(VMError::SegmentationFault)));
    assert_eq!(session.instr_ptr, 0);
    assert_eq!(session.logs.len(), 1);
    assert_eq!(session.logs.back().unwrap().msg, "SegmentationFault");
    assert_eq!(session.logs.back().unwrap().source, LogSource::ERROR);
    assert_eq!(session.logs.back().unwrap().frame_id, Some(0));
    session.log_dest = LogDestination::EventStream;
    assert!(matches!(session.tick(), Err(VMError::SegmentationFault)));
    assert_eq!(session.instr_ptr, 0);
    assert_eq!(session.logs.len(), 2);
    assert_eq!(session.logs.back().unwrap().msg, "SegmentationFault");
    assert_eq!(session.logs.back().unwrap().source, LogSource::ERROR);
}

#[test]
fn the_log_keeps_the_last_entries() {
    let mut session = Session::default();
    assert_eq!(session.log_capacity, LOG_CAPACITY);
    assert_eq!(LOG_CAPACITY, 16);
    for i in 0..20 {
        session.enqueue_log(Log::new(format!("{}", i), LogSource::VM, Some(i)));
    }
    assert_eq!(session.logs.len(), 16);
    assert_eq!(session.logs.front().unwrap().msg, "4");
    assert_eq!(session.logs.back().unwrap().msg, "19");
}

#[test]
fn a_restart_begins_anew() {
    let mut session =
        Session::new(ProgramRuntimeConfig::new(8, 2, GCType::MarkCompact(CompactAlgorithm::Lisp2)));
    session.program =
        VecDeque::from(vec![Instruction::Allocate { object: scalars(&[1]), is_root: true }]);
    assert!(session.tick().is_ok());
    session.restart();
    assert_eq!(session.instr_ptr, 0);
    assert_eq!(session.program.len(), 1);
    assert!(session.logs.is_empty());
    assert!(session.vm.heap.objects.is_empty());
    assert_eq!(session.vm.heap.free_list.to_vec(), vec![(0, 8)]);
    assert_eq!(session.vm.heap.alignment, 2);
    assert_eq!(session.vm.collector.ty(), GCType::MarkCompact(CompactAlgorithm::Lisp2));
    assert!(session.vm.heap.memory.iter().all(|c| c.status == CellStatus::Free));
    assert!(session.tick().is_ok());
}

#[test]
fn the_info_block_counts_objects_and_free_cells() {
    let mut session = Session::new(ProgramRuntimeConfig::new(10, 0, GCType::MarkSweep));
    session.program =
        VecDeque::from(vec![Instruction::Allocate { object: scalars(&[1, 2, 3]), is_root: true }]);
    assert!(session.tick().is_ok());
    let info = session.make_info_block();
    assert_eq!(info.allocd_objects, 1);
    assert_eq!(info.free_memory, 7);
    assert_eq!(info.heap_size, 10);
    assert_eq!(info.alignment, 0);
    assert_eq!(info.gc_type, GCType::MarkSweep);
    assert!(matches!(WSMessageResponse::halt(), WSMessageResponse::Halt));
    let tick = WSMessageResponse::new_tick(Vec::new(), None, Some(true), None, info);
    assert!(matches!(tick, WSMessageResponse::Tick { pause_on_return: Some(true), .. }));
}

#[test]
fn the_default_configuration() {
    let config = ProgramRuntimeConfig::default();
    assert_eq!(config.heap_size, 1024);
    assert_eq!(config.alignment, 4);
    assert_eq!(config.gc_ty, GCType::MarkSweep);
    let weights = ProgGenConfig::default();
    assert_eq!(weights.num_instrs, 100);
    assert_eq!(
        (weights.prob_alloc, weights.prob_read, weights.prob_write, weights.prob_gc),
        (55, 20, 20, 5)
    );
    assert_eq!((weights.prob_write_scalar, weights.prob_write_pointer), (50, 50));
}

#[test]
fn a_generated_program_runs_without_error() {
    for kind in [
        GCType::MarkSweep,
        GCType::MarkCompact(CompactAlgorithm::TwoFinger),
        GCType::MarkCompact(CompactAlgorithm::Lisp2),
    ] {
        for _ in 0..5 {
            let config = ProgramRuntimeConfig::new(1024, 4, kind);
            let mut session = Session::new(config);
            let (program, made_for) = session.gen_program();
            assert_eq!(program.len(), 100);
            assert_eq!(made_for, config);
            session.program = program;
            while session.instr_ptr < session.program.len() {
                let ticked = session.tick();
                assert!(ticked.is_ok(), "{:?} at {}", ticked, session.instr_ptr);
            }
        }
    }
}

#[test]
fn a_generator_in_a_full_heap_collects() {
    let mut simulator = Simulator::new(ProgramRuntimeConfig::new(0, 0, GCType::MarkSweep));
    let program = simulator.gen_program();
    assert_eq!(program.len(), 100);
    assert!(program.iter().all(|i| matches!(i, Instruction::GC)));
    assert!(matches!(simulator.gen_allocate(), Instruction::GC));
    assert!(matches!(simulator.gen_read(), Instruction::GC));
    assert!(matches!(simulator.gen_write(), Instruction::GC));
    assert_eq!(simulator.random_object_address(), None);
}

#[test]
fn the_chain_of_a_read_is_followed() {
    let mut simulator = Simulator::new(ProgramRuntimeConfig::new(64, 0, GCType::MarkSweep));
    let holder = Object::new(vec![Field::new_ref(Address::Null)]);
    let placed = simulator.emit(Instruction::Allocate { object: holder, is_root: true });
    assert!(matches!(placed, Instruction::Allocate { .. }));
    let _ = simulator.emit(Instruction::Allocate { object: scalars(&[2]), is_root: true });
    let _ = simulator.emit(Instruction::Allocate { object: scalars(&[5]), is_root: true });
    // 0 refers to 1, which holds the value 2: the base of the third object
    let _ = simulator.emit(Instruction::Write { addr: 0, value: 1 });
    let mut chain: Vec<usize> = simulator.reference_chain(0).into_iter().collect();
    chain.sort();
    assert_eq!(chain, vec![0, 2]);
    let short: Vec<usize> = simulator.reference_chain(2).into_iter().collect();
    assert_eq!(short, vec![2]);
    let failed = simulator.emit(Instruction::Read { addr: 60 });
    assert!(matches!(failed, Instruction::GC));
    assert!(simulator.random_object_address().is_some());
    assert!(has_scalar(&scalars(&[1])));
    assert!(!has_scalar(&Object::new(vec![Field::new_ref(Address::Null)])));
}

#[test]
fn a_generated_program_reads_values_and_writes_into_objects() {
    for _ in 0..5 {
        let config = ProgramRuntimeConfig::new(512, 0, GCType::MarkCompact(CompactAlgorithm::Lisp2));
        let mut simulator = Simulator::new(config);
        let program = simulator.gen_program();
        let mut vm = VirtualMachine::new(config.alignment, config.heap_size, init_collector(&config.gc_ty));
        for instr in program {
            match &instr {
                Instruction::Allocate { object, is_root } => {
                    assert!(*is_root);
                    assert!((1..=10).contains(&object.fields.len()));
                    assert!(!object.header.marked);
                    assert_eq!(object.header.fwd_addr, None);
                }
                Instruction::Read { addr } => {
                    let base = vm.heap.lookup_object_addr(*addr).unwrap();
                    let field = &vm.heap.objects[&base].fields[*addr - base];
                    assert!(matches!(field, Field::Scalar { .. }));
                }
                Instruction::Write { addr, value } => {
                    let base = vm.heap.lookup_object_addr(*addr).unwrap();
                    if *value > 9 {
                        assert!(has_scalar(&vm.heap.objects[value]));
                        assert_ne!(*value, base);
                    }
                }
                Instruction::GC => {}
            }
            assert!(vm.tick(&instr).is_ok());
            assert!(vm.heap.is_sound());
        }
    }
}

#[test]
fn a_collector_is_found_by_its_name() {
    for kind in [
        GCType::MarkSweep,
        GCType::MarkCompact(CompactAlgorithm::TwoFinger),
        GCType::MarkCompact(CompactAlgorithm::Lisp2),
    ] {
        assert_eq!(GCType::named(&kind.name()), Some(kind));
    }
    assert_eq!(GCType::MarkSweep.name(), "MarkSweep");
    assert_eq!(GCType::MarkCompact(CompactAlgorithm::TwoFinger).name(), "MarkCompact_TwoFinger");
    assert_eq!(GCType::MarkCompact(CompactAlgorithm::Lisp2).name(), "MarkCompact_Lisp2");
    assert_eq!(GCType::named(&"MarkCompactTwoFinger".to_string()), None);
    assert_eq!(GCType::named(&String::new()), None);
}

#[test]
fn an_instruction_is_assembled_from_its_parts() {
    let made = Instruction::assemble(
        Some("Allocate".to_string()),
        Some(scalars(&[1, 2])),
        Some(7),
        None,
        None,
    );
    match made {
        Ok(Instruction::Allocate { object, is_root }) => {
            assert!(is_root);
            assert_eq!(object.fields.len(), 2);
        }
        other => panic!("{other:?}"),
    }
    let kept = Instruction::assemble(
        Some("Allocate".to_string()),
        Some(scalars(&[1])),
        None,
        None,
        Some(false),
    );
    assert!(matches!(kept, Ok(Instruction::Allocate { is_root: false, .. })));
    let read = Instruction::assemble(Some("Read".to_string()), None, Some(3), Some(4), None);
    assert!(matches!(read, Ok(Instruction::Read { addr: 3 })));
    let write = Instruction::assemble(Some("Write".to_string()), None, Some(3), Some(4), None);
    assert!(matches!(write, Ok(Instruction::Write { addr: 3, value: 4 })));
    let gc = Instruction::assemble(Some("GC".to_string()), None, None, None, None);
    assert!(matches!(gc, Ok(Instruction::GC)));
}

#[test]
fn an_instruction_with_a_part_missing_is_malformed() {
    let allocate = Instruction::assemble(Some("Allocate".to_string()), None, Some(1), Some(2), None);
    assert!(matches!(allocate, Err(Malformed::NoObject)));
    let read = Instruction::assemble(Some("Read".to_string()), None, None, Some(2), None);
    assert!(matches!(read, Err(Malformed::NoAddr)));
    let write = Instruction::assemble(Some("Write".to_string()), None, None, None, None);
    assert!(matches!(write, Err(Malformed::NoAddr)));
    let write = Instruction::assemble(Some("Write".to_string()), None, Some(1), None, None);
    assert!(matches!(write, Err(Malformed::NoValue)));
    let unknown = Instruction::assemble(Some("Free".to_string()), None, Some(1), Some(2), None);
    assert!(matches!(unknown, Err(Malformed::InvalidType)));
    let nameless = Instruction::assemble(None, None, Some(1), Some(2), None);
    assert!(matches!(nameless, Err(Malformed::InvalidType)));
}

#[test]
fn an_instruction_knows_the_name_of_its_kind() {
    let allocate = Instruction::Allocate { object: scalars(&[1]), is_root: true };
    assert_eq!(allocate.kind(), "Allocate");
    assert_eq!(Instruction::Read { addr: 0 }.kind(), "Read");
    assert_eq!(Instruction::Write { addr: 0, value: 1 }.kind(), "Write");
    assert_eq!(Instruction::GC.kind(), "GC");
}

#[test]
fn a_header_that_says_nothing_is_not_marked() {
    assert_eq!(ObjHeader::restored(None, None), ObjHeader { marked: false, fwd_addr: None });
    assert_eq!(ObjHeader::restored(Some(true), Some(4)), ObjHeader { marked: true, fwd_addr: Some(4) });
    assert_eq!(ObjHeader::restored(Some(false), None), ObjHeader { marked: false, fwd_addr: None });
}

#[test]
fn an_answer_knows_the_name_of_its_kind() {
    assert_eq!(WSMessageResponse::halt().msg_type(), "HALT");
    let session = Session::new(ProgramRuntimeConfig::default());
    let tick = WSMessageResponse::new_tick(Vec::new(), None, None, None, session.make_info_block());
    assert_eq!(tick.msg_type(), "TICK");
}

fn request(msg_type: WSMessageRequestType) -> WSMessageRequest {
    WSMessageRequest { msg_type, pause_on_return: Some(true), program_name: None }
}

#[test]
fn a_dialogue_runs_the_program_and_says_when_it_is_over() {
    let mut connection = Connection::new();
    connection.session.load_program(Some((
        VecDeque::from(vec![
            Instruction::Allocate { object: scalars(&[7]), is_root: true },
            Instruction::Read { addr: 0 },
        ]),
        ProgramRuntimeConfig::new(8, 0, GCType::MarkSweep),
    )));
    match connection.handle(request(WSMessageRequestType::Tick)) {
        Action::Send(WSMessageResponse::Tick {
            memory,
            log_entry,
            pause_on_return,
            instr_result,
            info_block,
        }) => {
            assert_eq!(memory.len(), 8);
            assert_eq!(memory[0].status, CellStatus::Allocated);
            assert_eq!(memory[1].status, CellStatus::Free);
            assert_eq!(log_entry.unwrap().msg, "Object [size: 1] [7] at 0x0");
            assert_eq!(pause_on_return, Some(true));
            assert!(matches!(instr_result, Some(InstrResult::Allocate { addr: 0, .. })));
            assert_eq!(info_block.allocd_objects, 1);
            assert_eq!(info_block.free_memory, 7);
            assert_eq!(info_block.heap_size, 8);
        }
        other => panic!("{other:?}"),
    }
    match connection.handle(request(WSMessageRequestType::Tick)) {
        Action::Send(WSMessageResponse::Tick { memory, instr_result, .. }) => {
            assert_eq!(memory[0].status, CellStatus::Used);
            assert!(matches!(instr_result, Some(InstrResult::Read { addr: 0, value: 7 })));
        }
        other => panic!("{other:?}"),
    }
    assert!(!connection.already_said_halt);
    let over = connection.handle(request(WSMessageRequestType::Tick));
    assert!(matches!(over, Action::Send(WSMessageResponse::Halt)));
    assert!(connection.already_said_halt);
    let silent = connection.handle(request(WSMessageRequestType::Tick));
    assert!(matches!(silent, Action::Nothing));
    let reset = connection.handle(request(WSMessageRequestType::Reset));
    assert!(matches!(reset, Action::Nothing));
    assert!(!connection.already_said_halt);
    assert_eq!(connection.session.instr_ptr, 0);
    assert!(connection.session.vm.heap.objects.is_empty());
    let again = connection.handle(request(WSMessageRequestType::Tick));
    assert!(matches!(again, Action::Send(WSMessageResponse::Tick { .. })));
}

#[test]
fn a_dialogue_hands_a_failure_on_and_stays() {
    let mut connection = Connection::new();
    connection.session.load_program(Some((
        VecDeque::from(vec![Instruction::Read { addr: 3 }]),
        ProgramRuntimeConfig::new(8, 0, GCType::MarkSweep),
    )));
    let failed = connection.handle(request(WSMessageRequestType::Tick));
    assert!(matches!(failed, Action::Failed(VMError::SegmentationFault)));
    assert_eq!(connection.session.instr_ptr, 0);
    assert!(!connection.already_said_halt);
}

#[test]
fn a_dialogue_asks_for_the_program_to_be_read() {
    let mut connection = Connection::new();
    let asked = connection.handle(WSMessageRequest {
        msg_type: WSMessageRequestType::LoadProgram,
        pause_on_return: None,
        program_name: Some("simple".to_string()),
    });
    match asked {
        Action::Load { program_name } => assert_eq!(program_name.as_deref(), Some("simple")),
        other => panic!("{other:?}"),
    }
    assert_eq!(connection.session.program.len(), 0);
}

#[test]
fn a_session_without_a_program_to_read_generates_one() {
    let mut session = Session::new(ProgramRuntimeConfig::new(256, 2, GCType::MarkSweep));
    session.instr_ptr = 0;
    session.load_program(None);
    assert_eq!(session.program.len(), 100);
    assert_eq!(session.rts_cfg, ProgramRuntimeConfig::new(256, 2, GCType::MarkSweep));
    assert_eq!(session.vm.heap.memory.len(), 256);
    assert_eq!(session.vm.heap.alignment, 2);
    assert!(session.vm.heap.objects.is_empty());
    while session.instr_ptr < session.program.len() {
        assert!(session.tick().is_ok());
    }
}

#[test]
fn a_loaded_program_takes_its_configuration_along() {
    let mut session = Session::new(ProgramRuntimeConfig::default());
    session.enqueue_log(Log::new("kept".to_string(), LogSource::VM, None));
    let config = ProgramRuntimeConfig::new(16, 4, GCType::MarkCompact(CompactAlgorithm::Lisp2));
    session.load_program(Some((VecDeque::from(vec![Instruction::GC]), config)));
    assert_eq!(session.rts_cfg, config);
    assert_eq!(session.program.len(), 1);
    assert_eq!(session.logs.len(), 1);
    assert_eq!(session.vm.heap.memory.len(), 16);
    assert_eq!(session.vm.heap.alignment, 4);
    assert_eq!(session.vm.collector.ty(), config.gc_ty);
}

#[test]
fn a_log_entry_is_shown_in_full_and_as_a_line() {
    let entry = Log::new("it \"works\"".to_string(), LogSource::ALLOC, Some(12));
    assert_eq!(entry.text(), "Frame ID: Some(12) [ALLOC]: \"it \\\"works\\\"\"");
    assert_eq!(entry.line(), "12. [ALLOC] it \"works\"");
    let nowhere = Log::new("started".to_string(), LogSource::VM, None);
    assert_eq!(nowhere.text(), "Frame ID: None [VM]: \"started\"");
    assert_eq!(nowhere.line(), "[VM] started");
}

#[test]
fn the_files_have_their_names() {
    assert_eq!(program_file_name(1_700_000_000), "program_1700000000.yaml");
    assert_eq!(program_file_name(0), "program_0.yaml");
    assert_eq!(snapshot_file_name("tests/alloc_1"), "tests/alloc_1_snapshot.yaml");
    assert_eq!(program_path("/home/gc", "simple"), "/home/gc/tests/simple.yaml");
    assert_eq!(snapshot_path("/home/gc", "simple"), "/home/gc/tests/simple_snapshot.yaml");
}

fn marked_addresses(log: &[GCEvent]) -> Vec<usize> {
    log.iter()
        .map(|event| match event {
            GCEvent::MarkObject { addr, .. } => *addr,
            other => panic!("{other:?}"),
        })
        .collect()
}

#[test]
fn a_walk_goes_down_the_last_reference_first() {
    let mut heap = Heap::new(16, 0);
    let allocator = Allocator::new();
    let mutator = Mutator::new();
    let null = || Field::new_ref(Address::Null);
    // 0 refers to 3 and to 5; 3 refers to 7; 5 refers to 7 and back to 0
    assert_eq!(allocator.allocate(&mut heap, Object::new(vec![null(), null(), null()]), true), Ok(0));
    assert_eq!(allocator.allocate(&mut heap, Object::new(vec![null(), null()]), false), Ok(3));
    assert_eq!(allocator.allocate(&mut heap, Object::new(vec![null(), null()]), false), Ok(5));
    assert_eq!(allocator.allocate(&mut heap, scalars(&[1]), false), Ok(7));
    assert_eq!(allocator.allocate(&mut heap, scalars(&[2]), true), Ok(8));
    assert_eq!(allocator.allocate(&mut heap, scalars(&[3]), false), Ok(9));
    assert_eq!(mutator.write(&mut heap, 0, 3), Ok(()));
    assert_eq!(mutator.write(&mut heap, 1, 5), Ok(()));
    assert_eq!(mutator.write(&mut heap, 3, 7), Ok(()));
    assert_eq!(mutator.write(&mut heap, 5, 7), Ok(()));
    assert_eq!(mutator.write(&mut heap, 6, 0), Ok(()));
    let mut log = Vec::new();
    mark_from_roots(&mut heap, &mut log);
    assert_eq!(marked_addresses(&log), vec![0, 5, 7, 3, 8]);
    assert!(!is_marked(&heap, 9));

    let mut again = Vec::new();
    mark_from_roots(&mut heap, &mut again);
    assert_eq!(marked_addresses(&again), vec![0, 5, 7, 3, 8]);

    unmark(&mut heap, 7);
    unmark(&mut heap, 3);
    let mut walk = Vec::new();
    mark(&3, &mut heap, &mut walk);
    assert_eq!(marked_addresses(&walk), vec![3, 7]);
}

#[test]
fn an_object_is_made_of_what_was_drawn() {
    let object = Object::of_draws(&vec![true, false, false, true], &vec![3, 7, 0, 9]);
    assert_eq!(
        object.fields,
        vec![
            Field::new_ref(Address::Null),
            Field::new_scalar(7),
            Field::new_scalar(0),
            Field::new_ref(Address::Null),
        ]
    );
    assert_eq!(object.header, ObjHeader { marked: false, fwd_addr: None });
    assert!(Object::of_draws(&Vec::new(), &Vec::new()).fields.is_empty());
}

#[test]
fn the_places_of_the_values_are_listed_in_their_order() {
    let object = Object::of_draws(&vec![false, true, false, false, true], &vec![1, 2, 3, 4, 5]);
    assert_eq!(scalar_offsets(&object), vec![0, 2, 3]);
    let none = Object::new(vec![Field::new_ref(Address::Null)]);
    assert!(scalar_offsets(&none).is_empty());
}

#[test]
fn a_candidate_that_runs_is_emitted_and_one_that_fails_is_a_collection() {
    let mut simulator = Simulator::new(ProgramRuntimeConfig::new(4, 0, GCType::MarkSweep));
    let read = simulator.read_of(0, 0);
    assert!(matches!(read, Instruction::GC));
    let placed = simulator.allocation_of(scalars(&[5, 6]));
    match placed {
        Instruction::Allocate { object, is_root } => {
            assert!(is_root);
            assert_eq!(object.fields, vec![Field::new_scalar(5), Field::new_scalar(6)]);
        }
        other => panic!("{other:?}"),
    }
    assert!(matches!(simulator.read_of(0, 1), Instruction::Read { addr: 1 }));
    assert!(matches!(simulator.read_of(0, 2), Instruction::GC));
    assert!(matches!(simulator.write_of(0, 1, 9), Instruction::Write { addr: 1, value: 9 }));
    assert!(matches!(simulator.write_of(1, 2, 9), Instruction::GC));
    assert!(matches!(simulator.allocation_of(scalars(&[1, 2, 3])), Instruction::GC));
    assert!(matches!(simulator.allocation_of(Object::new(Vec::new())), Instruction::GC));
    assert!(matches!(simulator.emit(Instruction::GC), Instruction::GC));
    assert!(matches!(
        simulator.emit(Instruction::Write { addr: 0, value: 3 }),
        Instruction::Write { addr: 0, value: 3 }
    ));
}

#[test]
fn a_reference_may_be_set_to_what_lies_off_its_chain() {
    let mut simulator = Simulator::new(ProgramRuntimeConfig::new(64, 0, GCType::MarkSweep));
    let null = || Field::new_ref(Address::Null);
    // 0 holds a reference; 1 holds a reference and a value; 3 holds the
    // value 1, which is the base of the second object; 4 holds a
    // reference only
    let _ = simulator.allocation_of(Object::new(vec![null()]));
    let _ = simulator.allocation_of(Object::new(vec![null(), Field::new_scalar(1)]));
    let _ = simulator.allocation_of(scalars(&[1]));
    let _ = simulator.allocation_of(Object::new(vec![null()]));
    assert_eq!(simulator.pointer_targets(0), vec![1, 3]);
    // the read at 3 gives 1: the chain from 3 holds 3 and 1
    assert_eq!(simulator.pointer_targets(3), Vec::<usize>::new());
    // 0 refers to 1, and 1 refers to 3: the read at 0 gives 1 as well
    let _ = simulator.write_of(0, 0, 1);
    let _ = simulator.write_of(1, 0, 3);
    assert_eq!(simulator.pointer_targets(0), vec![3]);
    assert_eq!(simulator.pointer_targets(4), vec![1, 3]);
}

#[test]
fn a_kind_beyond_the_three_is_a_collection() {
    let mut simulator = Simulator::new(ProgramRuntimeConfig::new(32, 0, GCType::MarkSweep));
    assert!(matches!(simulator.step(3), Instruction::GC));
    assert!(matches!(simulator.step(17), Instruction::GC));
    for _ in 0..20 {
        assert!(matches!(simulator.step(0), Instruction::Allocate { .. } | Instruction::GC));
    }
    for _ in 0..20 {
        let made = simulator.step(1);
        assert!(!matches!(made, Instruction::Write { .. }));
    }
    for _ in 0..20 {
        let made = simulator.step(2);
        assert!(!matches!(made, Instruction::Read { .. }));
    }
}

#[test]
fn the_forwarding_table_holds_every_address_of_a_moved_object() {
    let mut heap = Heap::new(10, 0);
    let allocator = Allocator::new();
    assert_eq!(allocator.allocate(&mut heap, scalars(&[1, 2, 3]), true), Ok(0));
    let mut table = std::collections::HashMap::new();
    table.insert(9, 8);
    gcviz::gc::compact::two_finger::save_forward_ptrs(&heap, &mut table, 0, 5);
    let mut entries: Vec<(usize, usize)> = table.iter().map(|(k, v)| (*k, *v)).collect();
    entries.sort();
    assert_eq!(entries, vec![(0, 5), (1, 6), (2, 7), (9, 8)]);
    let moved = gcviz::gc::compact::two_finger::retable_field(
        &table,
        Field::new_ref(Address::Ptr(1)),
    );
    assert_eq!(moved, Field::new_ref(Address::Ptr(6)));
    let kept = gcviz::gc::compact::two_finger::retable_field(
        &table,
        Field::new_ref(Address::Ptr(4)),
    );
    assert_eq!(kept, Field::new_ref(Address::Ptr(4)));
    let value = gcviz::gc::compact::two_finger::retable_field(&table, Field::new_scalar(1));
    assert_eq!(value, Field::new_scalar(1));
}
