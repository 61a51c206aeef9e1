use crate::allocator::no_room;
use crate::allocator::placed;
use crate::allocator::Allocator;
use crate::error::VMError;
use crate::gc::Collector;
use crate::gc::GarbageCollector;
use crate::heap::lemma_shaped_fits;
use crate::heap::Heap;
use crate::heap::HeapView;
use crate::mutator::after_write;
use crate::mutator::base_of;
use crate::mutator::follow;
use crate::mutator::reports;
use crate::mutator::Mutator;
use crate::program::InstrResult;
use crate::program::Instruction;
use vstd::prelude::*;

verus! {

/// The machine: a heap, and what works on it.
#[derive(Debug)]
pub struct VirtualMachine {
    pub allocator: Allocator,
    pub mutator: Mutator,
    pub collector: Collector,
    pub heap: Heap,
}

/// `result` and `after` are what the instruction makes of the heap
/// `before` on a machine with this collector. An instruction that fails
/// leaves the heap as it was.
pub open spec fn stepped(
    before: HeapView,
    collector: Collector,
    instr: Instruction,
    result: Result<InstrResult, VMError>,
    after: HeapView,
) -> bool {
    match instr {
        Instruction::Allocate { object, is_root } => match result {
            Ok(InstrResult::Allocate { addr, object: placed_object }) => placed_object@ == object@
                && placed(before, after, object@, is_root, addr),
            Ok(_) => false,
            Err(e) => e == VMError::AllocationError && after == before && no_room(
                before,
                object@.fields.len() as int,
            ),
        },
        Instruction::Read { addr } => after == before && match result {
            Ok(InstrResult::Read { addr: at, value }) => at == addr && follow(
                before,
                addr,
                before.cells.len(),
            ) == Ok::<usize, crate::mutator::Fault>(value),
            Ok(_) => false,
            Err(e) => follow(before, addr, before.cells.len()) is Err && reports(
                Err(e),
                follow(before, addr, before.cells.len()),
            ),
        },
        Instruction::Write { addr, value } => match result {
            Ok(InstrResult::Write { addr: at, value: written }) => at == addr && written == value
                && base_of(before, addr) is Some && after == after_write(
                before,
                base_of(before, addr)->0,
                addr,
                value,
            ),
            Ok(_) => false,
            Err(e) => e == VMError::SegmentationFault && base_of(before, addr) is None && after
                == before,
        },
        Instruction::GC => match result {
            Ok(InstrResult::GC { stats, events }) => collector.collected(before, after)
                && collector.reported(before, events@),
            _ => false,
        },
    }
}

/// A value written to a field with a value is what a read of that field
/// gives next.
pub proof fn lemma_write_then_read(
    before: HeapView,
    collector: Collector,
    addr: usize,
    value: usize,
    written: Result<InstrResult, VMError>,
    between: HeapView,
    read: Result<InstrResult, VMError>,
    after: HeapView,
)
    requires
        crate::mutator::field_at(before, addr) matches Some(crate::object::Field::Scalar { value: _ }),
        stepped(before, collector, Instruction::Write { addr, value }, written, between),
        stepped(between, collector, Instruction::Read { addr }, read, after),
    ensures
        written is Ok,
        read matches Ok(InstrResult::Read { addr: at, value: got }) && at == addr && got == value,
        after == between,
{
    let base = base_of(before, addr)->0;
    crate::mutator::lemma_held(before, addr);
    crate::mutator::lemma_write_then_read(before, base, addr, value, between.cells.len());
}

/// A collection right after a collection changes nothing.
pub proof fn lemma_collect_then_collect(
    before: HeapView,
    collector: Collector,
    first: Result<InstrResult, VMError>,
    between: HeapView,
    second: Result<InstrResult, VMError>,
    after: HeapView,
)
    requires
        before.wf(),
        between.wf(),
        after.wf(),
        stepped(before, collector, Instruction::GC, first, between),
        stepped(between, collector, Instruction::GC, second, after),
    ensures
        after == between,
{
    crate::gc::laws::lemma_collect_twice(collector, before, between, after);
}

impl VirtualMachine {
    /// The heap of the machine is as it should be between two instructions.
    pub open spec fn wf(&self) -> bool {
        self.heap@.wf()
    }

    /// A machine with an empty heap.
    pub fn new(alignment: usize, heap_size: usize, gc: Collector) -> (vm: Self)
        ensures
            vm.wf(),
            vm.collector == gc,
            vm.heap@ == crate::heap::fresh(heap_size, alignment),
            vm.heap@.objects == Map::<usize, crate::object::ObjectView>::empty(),
            vm.heap@.roots == Set::<usize>::empty(),
            vm.heap@.size() == heap_size,
            vm.heap@.alignment == alignment,
    {
        VirtualMachine {
            allocator: Allocator::new(),
            mutator: Mutator::new(),
            collector: gc,
            heap: Heap::new(heap_size, alignment),
        }
    }

    /// Runs one instruction: an allocation, a read, a write, or a
    /// collection. An error of the part that runs it is handed on, and the
    /// heap is then as it was.
    pub fn tick(&mut self, instr: &Instruction) -> (result: Result<InstrResult, VMError>)
        requires
            old(self).wf(),
        ensures
            final(self).wf(),
            final(self).collector == old(self).collector,
            stepped(old(self).heap@, old(self).collector, *instr, result, final(self).heap@),
    {
        proof {
            lemma_shaped_fits(self.heap@);
        }
        match instr {
            Instruction::Allocate { object, is_root } => {
                match self.allocator.allocate(&mut self.heap, object.clone(), *is_root) {
                    Ok(addr) => Ok(InstrResult::Allocate { object: object.clone(), addr }),
                    Err(e) => Err(e),
                }
            },
            Instruction::Read { addr } => {
                match self.mutator.read(&self.heap, *addr) {
                    Ok(value) => Ok(InstrResult::Read { addr: *addr, value }),
                    Err(e) => Err(e),
                }
            },
            Instruction::Write { addr, value } => {
                match self.mutator.write(&mut self.heap, *addr, *value) {
                    Ok(_) => Ok(InstrResult::Write { addr: *addr, value: *value }),
                    Err(e) => Err(e),
                }
            },
            Instruction::GC => {
                let ghost before = self.heap@;
                let collected = self.collector.collect(&mut self.heap);
                let ghost after = self.heap@;
                proof {
                    lemma_shaped_fits(after);
                }
                self.heap.merge_free_ranges();
                assert(self.heap@ == after);
                match collected {
                    Ok((stats, events)) => Ok(InstrResult::GC { stats, events }),
                    Err(e) => Err(e),
                }
            },
        }
    }

    /// Gives the machine an empty heap of the given size, with the
    /// alignment that it had.
    pub fn reset_heap(&mut self, size: usize)
        ensures
            final(self).wf(),
            final(self).collector == old(self).collector,
            final(self).heap@ == crate::heap::fresh(size, old(self).heap@.alignment),
            final(self).heap@.objects == Map::<usize, crate::object::ObjectView>::empty(),
            final(self).heap@.roots == Set::<usize>::empty(),
            final(self).heap@.size() == size,
            final(self).heap@.alignment == old(self).heap@.alignment,
    {
        self.heap = Heap::new(size, self.heap.alignment);
    }
}

} // verus!
