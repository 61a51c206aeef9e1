use crate::error::VMError;
use crate::free_list::total;
use crate::gc::collector_of;
use crate::gc::init_collector;
use crate::heap::fresh;
use crate::heap::lemma_sizes_add_up;
use crate::heap::CellStatus;
use crate::heap::HeapView;
use crate::heap::MemoryCell;
use crate::log::Log;
use crate::log::LogSource;
use crate::log::LogView;
use crate::log::LOG_CAPACITY;
use crate::program::InstrResult;
use crate::program::Instruction;
use crate::program::Program;
use crate::rts_cfg::ProgramRuntimeConfig;
use crate::simulator::leads;
use crate::simulator::runnable;
use crate::simulator::Simulator;
use crate::simulator::NUM_INSTRS;
use crate::text::decimal;
use crate::text::decimal_digits;
use crate::text::hex;
use crate::text::hex_digits;
use crate::text::join;
use crate::vm::stepped;
use crate::vm::VirtualMachine;
use crate::wsmsg::InfoBlockData;
use std::collections::VecDeque;
use vstd::prelude::*;

verus! {

/// Where an instruction that failed is reported, besides the log of
/// the session, which holds every failure.
#[derive(Debug, Clone, Copy, PartialEq, Eq, Structural)]
pub enum LogDestination {
    /// Nowhere else.
    EventStream,
    /// On the standard output as well.
    Stdout,
}

/// The run of a program: the program, the place in it, the machine, and
/// a log of the last steps.
#[derive(Debug)]
pub struct Session {
    pub program: Program,
    pub rts_cfg: ProgramRuntimeConfig,
    pub instr_ptr: usize,
    pub logs: VecDeque<Log>,
    pub log_capacity: usize,
    pub vm: VirtualMachine,
    pub log_dest: LogDestination,
}

/// The entries of a log, each as a mathematical value.
pub open spec fn log_views(logs: Seq<Log>) -> Seq<LogView> {
    Seq::new(logs.len(), |i: int| logs[i]@)
}

/// The log after `entry` was enqueued: where the log is full, its oldest
/// entry has left.
pub open spec fn enqueued(logs: Seq<LogView>, capacity: usize, entry: LogView) -> Seq<LogView> {
    if logs.len() == capacity && logs.len() > 0 {
        logs.drop_first().push(entry)
    } else {
        logs.push(entry)
    }
}

/// The text of the log entry for what an instruction gave.
pub open spec fn result_text(result: InstrResult) -> Seq<char> {
    match result {
        InstrResult::Allocate { addr, object } => object@.text_spec() + " at 0x"@ + hex_digits(
            addr as nat,
        ),
        InstrResult::Read { addr, value } => "Read value from 0x"@ + hex_digits(addr as nat)
            + ". Value: "@ + decimal_digits(value as nat),
        InstrResult::Write { addr, value } => "Write value "@ + decimal_digits(value as nat)
            + " to 0x"@ + hex_digits(addr as nat),
        InstrResult::GC { stats, events } => "Collect garbage. Stats: GCStats"@,
    }
}

/// The source of the log entry for what an instruction gave.
pub open spec fn result_source(result: InstrResult) -> LogSource {
    match result {
        InstrResult::Allocate { addr, object } => LogSource::ALLOC,
        InstrResult::Read { addr, value } => LogSource::MUT,
        InstrResult::Write { addr, value } => LogSource::MUT,
        InstrResult::GC { stats, events } => LogSource::GC,
    }
}

/// The cells after what an instruction gave was shown: the cells of a
/// new object as allocated, the cell read or written as used.
pub open spec fn painted(cells: Seq<MemoryCell>, result: InstrResult) -> Seq<MemoryCell> {
    match result {
        InstrResult::Allocate { addr, object } => Seq::new(
            cells.len(),
            |i: int|
                if addr <= i < addr + object@.fields.len() {
                    MemoryCell { status: CellStatus::Allocated }
                } else {
                    cells[i]
                },
        ),
        InstrResult::Read { addr, value } => cells.update(
            addr as int,
            MemoryCell { status: CellStatus::Used },
        ),
        InstrResult::Write { addr, value } => cells.update(
            addr as int,
            MemoryCell { status: CellStatus::Used },
        ),
        InstrResult::GC { stats, events } => cells,
    }
}

/// A session as a mathematical value.
pub struct SessionView {
    pub program: Seq<Instruction>,
    pub rts_cfg: ProgramRuntimeConfig,
    pub instr_ptr: usize,
    pub logs: Seq<LogView>,
    pub log_capacity: usize,
    pub heap: HeapView,
    pub collector: crate::gc::Collector,
    pub log_dest: LogDestination,
}

/// `result` and `after` are what a tick makes of the session `before`.
///
/// Past the end of the program: an unknown error, and nothing changes.
/// Else the next instruction runs on the heap. Where it succeeds, the
/// result is logged and shown in the cells, and the session is at the
/// next instruction. Where it fails, the heap and the place in the
/// program stay, and the error is logged.
pub open spec fn ticked(
    before: SessionView,
    result: Result<InstrResult, VMError>,
    after: SessionView,
) -> bool {
    &&& after.program == before.program
    &&& after.rts_cfg == before.rts_cfg
    &&& after.log_capacity == before.log_capacity
    &&& after.log_dest == before.log_dest
    &&& after.collector == before.collector
    &&& if before.instr_ptr >= before.program.len() {
        result == Err::<InstrResult, VMError>(VMError::UnknownError) && after == before
    } else {
        &&& stepped(
            before.heap,
            before.collector,
            before.program[before.instr_ptr as int],
            result,
            with_cells(after.heap, before.heap.cells),
        )
        &&& match result {
            Ok(given) => {
                &&& after.instr_ptr == before.instr_ptr + 1
                &&& after.heap.cells == painted(before.heap.cells, given)
                &&& after.logs == enqueued(
                    before.logs,
                    before.log_capacity,
                    LogView {
                        msg: result_text(given),
                        source: result_source(given),
                        frame_id: Some(before.instr_ptr),
                    },
                )
            },
            Err(e) => {
                &&& after.instr_ptr == before.instr_ptr
                &&& after.heap == before.heap
                &&& after.logs == enqueued(
                    before.logs,
                    before.log_capacity,
                    LogView {
                        msg: e.label_spec(),
                        source: LogSource::ERROR,
                        frame_id: Some(before.instr_ptr),
                    },
                )
            },
        }
    }
}

/// `after` is the session `before` started over: at the beginning of
/// its program, with an empty heap of the same size and alignment, and
/// with an empty log.
pub open spec fn restarted(before: SessionView, after: SessionView) -> bool {
    &&& after.instr_ptr == 0
    &&& after.program == before.program
    &&& after.rts_cfg == before.rts_cfg
    &&& after.log_capacity == before.log_capacity
    &&& after.log_dest == before.log_dest
    &&& after.collector == before.collector
    &&& after.heap == fresh(before.heap.cells.len() as usize, before.heap.alignment)
    &&& after.logs == Seq::<LogView>::empty()
}

/// `after` is the session `before` with a program to run: the program
/// that was read, with its configuration, or else a generated one for the
/// configuration that the session had. The machine is one of that
/// configuration with an empty heap; the place in the program and the
/// log stay.
pub open spec fn loaded(
    before: SessionView,
    read: Option<(Program, ProgramRuntimeConfig)>,
    after: SessionView,
) -> bool {
    &&& after.instr_ptr == before.instr_ptr
    &&& after.logs == before.logs
    &&& after.log_capacity == before.log_capacity
    &&& after.log_dest == before.log_dest
    &&& after.heap == fresh(after.rts_cfg.heap_size, after.rts_cfg.alignment)
    &&& after.collector == collector_of(after.rts_cfg.gc_ty)
    &&& match read {
        Some((program, rts_cfg)) => after.program == program@ && after.rts_cfg == rts_cfg,
        None => after.rts_cfg == before.rts_cfg && after.program.len() == NUM_INSTRS && runnable(
            after.heap,
            after.collector,
            after.program,
        ),
    }
}

/// The heap with other cells shown.
pub open spec fn with_cells(h: HeapView, cells: Seq<MemoryCell>) -> HeapView {
    HeapView { cells, ..h }
}

/// An address that an object of a sound heap holds lies in the heap.
pub proof fn lemma_held_in_heap(h: HeapView, addr: usize)
    requires
        h.shaped(),
        crate::mutator::base_of(h, addr) is Some,
    ensures
        addr < h.size(),
{
    let b = choose|b: usize| h.holds(b, addr);
    assert(h.holds(b, addr));
    assert(h.objects.contains_key(b));
}

impl View for Session {
    type V = SessionView;

    open spec fn view(&self) -> SessionView {
        SessionView {
            program: self.program@,
            rts_cfg: self.rts_cfg,
            instr_ptr: self.instr_ptr,
            logs: log_views(self.logs@),
            log_capacity: self.log_capacity,
            heap: self.vm.heap@,
            collector: self.vm.collector,
            log_dest: self.log_dest,
        }
    }
}

impl Default for Session {
    fn default() -> (session: Self)
        ensures
            session.wf(),
    {
        Session::new(ProgramRuntimeConfig::default())
    }
}

impl Session {
    /// The machine of the session is as it should be between two instructions.
    pub open spec fn wf(&self) -> bool {
        self.vm.wf()
    }

    /// A session on a machine of the given configuration, with an empty
    /// program and an empty log.
    pub fn new(rts_cfg: ProgramRuntimeConfig) -> (session: Self)
        ensures
            session.wf(),
            session.program@.len() == 0,
            session.logs@.len() == 0,
            session.instr_ptr == 0,
            session.log_capacity == LOG_CAPACITY,
            session.log_dest == LogDestination::Stdout,
            session.rts_cfg == rts_cfg,
            session.vm.heap@ == fresh(rts_cfg.heap_size, rts_cfg.alignment),
            session.vm.collector == collector_of(rts_cfg.gc_ty),
    {
        let vm = VirtualMachine::new(
            rts_cfg.alignment,
            rts_cfg.heap_size,
            init_collector(&rts_cfg.gc_ty),
        );
        Session {
            program: VecDeque::new(),
            logs: VecDeque::with_capacity(LOG_CAPACITY),
            log_dest: LogDestination::Stdout,
            log_capacity: LOG_CAPACITY,
            instr_ptr: 0,
            rts_cfg,
            vm,
        }
    }

    /// Puts the entry at the end of the log; where the log is full, its
    /// oldest entry leaves.
    pub fn enqueue_log(&mut self, log: Log)
        ensures
            log_views(final(self).logs@) == enqueued(
                log_views(old(self).logs@),
                old(self).log_capacity,
                log@,
            ),
            final(self).program == old(self).program,
            final(self).rts_cfg == old(self).rts_cfg,
            final(self).instr_ptr == old(self).instr_ptr,
            final(self).log_capacity == old(self).log_capacity,
            final(self).vm == old(self).vm,
            final(self).log_dest == old(self).log_dest,
    {
        if self.logs.len() == self.log_capacity {
            self.logs.pop_front();
        }
        self.logs.push_back(log);
        proof {
            assert(log_views(self.logs@) =~= enqueued(
                log_views(old(self).logs@),
                old(self).log_capacity,
                log@,
            ));
        }
    }

    /// A program for a machine of the session's configuration, and that
    /// configuration. The program runs without error on such a machine
    /// when its heap is empty.
    pub fn gen_program(&mut self) -> (generated: (Program, ProgramRuntimeConfig))
        ensures
            *final(self) == *old(self),
            generated.1 == old(self).rts_cfg,
            generated.0@.len() == NUM_INSTRS,
            runnable(
                fresh(old(self).rts_cfg.heap_size, old(self).rts_cfg.alignment),
                collector_of(old(self).rts_cfg.gc_ty),
                generated.0@,
            ),
    {
        let mut sim = Simulator::new(self.rts_cfg);
        let ghost start = sim.heap();
        let program = sim.gen_program();
        proof {
            assert(leads(start, collector_of(self.rts_cfg.gc_ty), program@, sim.heap()));
        }
        (program, sim.runtime_config())
    }

    /// Gives the session a program to run, and a machine for it: the
    /// program that was read, with its configuration, or else a
    /// generated one.
    pub fn load_program(&mut self, read: Option<(Program, ProgramRuntimeConfig)>)
        ensures
            final(self).wf(),
            loaded(old(self)@, read, final(self)@),
    {
        let (program, rts_cfg) = match read {
            Some(read) => read,
            None => self.gen_program(),
        };
        self.program = program;
        self.rts_cfg = rts_cfg;
        self.vm = VirtualMachine::new(
            rts_cfg.alignment,
            rts_cfg.heap_size,
            init_collector(&rts_cfg.gc_ty),
        );
    }

    /// Runs the next instruction of the program.
    ///
    /// Where it succeeds, the result is logged and shown in the cells, and
    /// the session goes on to the next instruction. Where it fails, the
    /// machine and the place in the program stay as they were, and the
    /// error is logged. Past the end of
    /// the program there is nothing to run: an unknown error, and nothing
    /// changes.
    pub fn tick(&mut self) -> (result: Result<InstrResult, VMError>)
        requires
            old(self).wf(),
        ensures
            final(self).wf(),
            ticked(old(self)@, result, final(self)@),
            old(self).instr_ptr >= old(self).program@.len() ==> *final(self) == *old(self),
    {
        if self.instr_ptr >= self.program.len() {
            return Err(VMError::UnknownError);
        }
        let ghost before = self.vm.heap@;
        let ghost instr = self.program@[self.instr_ptr as int];
        let ticked = self.vm.tick(&self.program[self.instr_ptr]);
        match ticked {
            Ok(instr_result) => {
                let source = match &instr_result {
                    InstrResult::Allocate { object: _, addr: _ } => LogSource::ALLOC,
                    InstrResult::Read { addr: _, value: _ } => LogSource::MUT,
                    InstrResult::Write { addr: _, value: _ } => LogSource::MUT,
                    InstrResult::GC { stats: _, events: _ } => LogSource::GC,
                };
                let msg = match &instr_result {
                    InstrResult::Allocate { object, addr } => {
                        let what = object.text();
                        let place = hex(*addr);
                        let head = join(what.as_str(), " at 0x");
                        join(head.as_str(), place.as_str())
                    },
                    InstrResult::Read { addr, value } => {
                        let place = hex(*addr);
                        let read = decimal(*value);
                        let a = join("Read value from 0x", place.as_str());
                        let b = join(a.as_str(), ". Value: ");
                        join(b.as_str(), read.as_str())
                    },
                    InstrResult::Write { addr, value } => {
                        let place = hex(*addr);
                        let written = decimal(*value);
                        let a = join("Write value ", written.as_str());
                        let b = join(a.as_str(), " to 0x");
                        join(b.as_str(), place.as_str())
                    },
                    InstrResult::GC { stats: _, events: _ } => {
                        "Collect garbage. Stats: GCStats".to_owned()
                    },
                };
                self.enqueue_log(Log::new(msg, source, Some(self.instr_ptr)));
                let ghost shown = self.vm.heap@;
                match &instr_result {
                    InstrResult::Allocate { object, addr } => {
                        Self::visualize_allocation(&mut self.vm.heap.memory, *addr, object.size());
                    },
                    InstrResult::Read { addr, value: _ } => {
                        proof {
                            lemma_held_in_heap(before, *addr);
                        }
                        Self::visualize_mutator(&mut self.vm.heap.memory, *addr);
                    },
                    InstrResult::Write { addr, value: _ } => {
                        proof {
                            lemma_held_in_heap(before, *addr);
                        }
                        Self::visualize_mutator(&mut self.vm.heap.memory, *addr);
                    },
                    InstrResult::GC { stats: _, events: _ } => {},
                }
                proof {
                    assert(self.vm.heap@.cells =~= painted(before.cells, instr_result));
                    assert(with_cells(self.vm.heap@, before.cells) == shown);
                    crate::gc::common::lemma_cells_keep_wf(shown, self.vm.heap@);
                }
                self.instr_ptr += 1;
                Ok(instr_result)
            },
            Err(e) => {
                self.enqueue_log(Log::new(e.label(), LogSource::ERROR, Some(self.instr_ptr)));
                proof {
                    assert(with_cells(self.vm.heap@, before.cells) == before);
                }
                Err(e)
            },
        }
    }

    /// Starts the program over: the place in the program is its
    /// beginning, the log is empty, and the machine has an empty heap of
    /// its size and alignment and a fresh collector of its kind.
    pub fn restart(&mut self)
        ensures
            final(self).wf(),
            restarted(old(self)@, final(self)@),
    {
        self.instr_ptr = 0;
        self.logs.clear();
        let new_collector = self.vm.collector.new_instance();
        self.vm = VirtualMachine::new(
            self.vm.heap.alignment,
            self.vm.heap.memory.len(),
            new_collector,
        );
        proof {
            assert(log_views(self.logs@) =~= Seq::<LogView>::empty());
        }
    }

    /// Shows the cell at `addr` as used.
    pub fn visualize_mutator(memory: &mut Vec<MemoryCell>, addr: usize)
        requires
            addr < old(memory)@.len(),
        ensures
            final(memory)@ == old(memory)@.update(
                addr as int,
                MemoryCell { status: CellStatus::Used },
            ),
    {
        memory.set(addr, MemoryCell::new(CellStatus::Used));
    }

    /// Shows the `size` cells from `addr` on as allocated, as far as the
    /// memory reaches.
    pub fn visualize_allocation(memory: &mut Vec<MemoryCell>, addr: usize, size: usize)
        ensures
            final(memory)@.len() == old(memory)@.len(),
            forall|i: int|
                0 <= i < old(memory)@.len() ==> #[trigger] final(memory)@[i] == if addr <= i < addr
                    + size {
                    MemoryCell { status: CellStatus::Allocated }
                } else {
                    old(memory)@[i]
                },
    {
        let len = memory.len();
        let mut offset: usize = 0;
        while offset < size && addr < len && offset < len - addr
            invariant
                len == memory@.len(),
                len == old(memory)@.len(),
                offset <= size,
                addr < len ==> offset <= len - addr,
                forall|i: int|
                    0 <= i < len ==> #[trigger] memory@[i] == if addr <= i < addr + offset {
                        MemoryCell { status: CellStatus::Allocated }
                    } else {
                        old(memory)@[i]
                    },
            decreases size - offset,
        {
            memory.set(addr + offset, MemoryCell::new(CellStatus::Allocated));
            offset += 1;
        }
    }

    /// The figures of the session: its configuration, the number of its
    /// objects, and the sum of the lengths of its free runs.
    pub fn make_info_block(&self) -> (info: InfoBlockData)
        requires
            self.wf(),
        ensures
            info == (InfoBlockData {
                gc_type: self.rts_cfg.gc_ty,
                alignment: self.rts_cfg.alignment,
                heap_size: self.rts_cfg.heap_size,
                allocd_objects: self.vm.heap@.objects.len() as usize,
                free_memory: total(self.vm.heap@.free) as usize,
            }),
    {
        proof {
            lemma_sizes_add_up(self.vm.heap@);
            assert(self.vm.heap.objects@.dom() =~= self.vm.heap@.objects.dom());
        }
        InfoBlockData {
            gc_type: self.rts_cfg.gc_ty,
            alignment: self.rts_cfg.alignment,
            heap_size: self.rts_cfg.heap_size,
            allocd_objects: self.vm.heap.objects.len(),
            free_memory: self.vm.heap.calc_free_memory(),
        }
    }
}

} // verus!
