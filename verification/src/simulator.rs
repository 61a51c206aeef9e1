use crate::chance::between;
use crate::chance::pick;
use crate::chance::weight_sum;
use crate::chance::weighted;
use crate::error::VMError;
use crate::gc::init_collector;
use crate::gc::Collector;
use crate::heap::HeapView;
use crate::mutator::follow;
use crate::object::Field;
use crate::object::ObjAddr;
use crate::object::Object;
use crate::ordered::lists;
use crate::ordered::sorted_keys;
use crate::program::InstrResult;
use crate::program::Instruction;
use crate::program::Program;
use crate::rts_cfg::ProgramRuntimeConfig;
use crate::vm::stepped;
use crate::vm::VirtualMachine;
use std::collections::HashSet;
use std::collections::VecDeque;
use vstd::prelude::*;

verus! {

broadcast use vstd::std_specs::hash::group_hash_axioms;

/// The length of a generated program where nothing else is asked for.
pub const NUM_INSTRS: usize = 100;

/// How a program is generated: its length, and the weights with which
/// the kinds of instructions, and of writes, are drawn.
#[derive(Debug, Clone, Copy, PartialEq, Eq, Structural)]
pub struct ProgGenConfig {
    pub num_instrs: usize,
    pub prob_alloc: u32,
    pub prob_read: u32,
    pub prob_write: u32,
    pub prob_gc: u32,
    pub prob_write_scalar: u32,
    pub prob_write_pointer: u32,
}

impl ProgGenConfig {
    /// The weights can be drawn from: of the four kinds of instructions
    /// one has a weight, of the two kinds of writes one has, and the
    /// weights add up within `u32`.
    pub open spec fn valid(self) -> bool {
        &&& 0 < self.prob_alloc + self.prob_read + self.prob_write + self.prob_gc <= u32::MAX
        &&& 0 < self.prob_write_scalar + self.prob_write_pointer <= u32::MAX
    }
}

impl Default for ProgGenConfig {
    fn default() -> (config: Self)
        ensures
            config.valid(),
            config == (ProgGenConfig {
                num_instrs: NUM_INSTRS,
                prob_alloc: 55,
                prob_read: 20,
                prob_write: 20,
                prob_gc: 5,
                prob_write_scalar: 50,
                prob_write_pointer: 50,
            }),
    {
        ProgGenConfig {
            num_instrs: NUM_INSTRS,
            prob_alloc: 55,
            prob_read: 20,
            prob_write: 20,
            prob_gc: 5,
            prob_write_scalar: 50,
            prob_write_pointer: 50,
        }
    }
}

/// The instruction runs without error on the heap `before`, and leaves
/// the heap `after`.
pub open spec fn ran(before: HeapView, collector: Collector, instr: Instruction, after: HeapView) -> bool {
    exists|result: Result<InstrResult, VMError>| #[trigger]
        stepped(before, collector, instr, result, after) && result is Ok
}

/// The program runs without error from the heap `before`, and leaves
/// the heap `after`.
pub open spec fn runs(
    before: HeapView,
    collector: Collector,
    program: Seq<Instruction>,
    after: HeapView,
) -> bool
    decreases program.len(),
{
    if program.len() == 0 {
        after == before
    } else {
        exists|mid: HeapView|
            runs(before, collector, program.drop_last(), mid) && #[trigger] ran(
                mid,
                collector,
                program.last(),
                after,
            )
    }
}

/// The instruction runs without error on the heap `h`: an allocation
/// finds room, a read gives a value, a write goes to a field of an
/// object; a collection always does.
pub open spec fn succeeds(h: HeapView, instr: Instruction) -> bool {
    match instr {
        Instruction::Allocate { object, is_root } => !crate::allocator::no_room(
            h,
            object@.fields.len() as int,
        ),
        Instruction::Read { addr } => follow(h, addr, h.cells.len()) is Ok,
        Instruction::Write { addr, value } => crate::mutator::base_of(h, addr) is Some,
        Instruction::GC => true,
    }
}

/// What the generator emits for a candidate on the heap `h`: the
/// candidate where it runs without error, else a collection.
pub open spec fn emitted(h: HeapView, candidate: Instruction) -> Instruction {
    if succeeds(h, candidate) {
        candidate
    } else {
        Instruction::GC
    }
}

/// The places of the fields with a value among `fields`.
pub open spec fn scalar_places(fields: Seq<Field>) -> Set<usize> {
    Set::new(|i: usize| i < fields.len() && fields[i as int] is Scalar)
}

/// The objects that a reference of the object at `source` may be set
/// to: those that have a field with a value and do not lie on the chain
/// of reads from `source`.
pub open spec fn targets_of(h: HeapView, source: usize) -> Set<usize> {
    Set::new(
        |a: usize|
            h.objects.contains_key(a) && holds_value(h, a) && !chain(
                h,
                source,
                h.objects.len(),
            ).contains(a),
    )
}

/// The heap has an object.
pub open spec fn populated(h: HeapView) -> bool {
    exists|b: usize| h.objects.contains_key(b)
}

/// Every object of the heap has a field with a value.
pub open spec fn all_hold_values(h: HeapView) -> bool {
    forall|b: usize| #[trigger] h.objects.contains_key(b) ==> holds_value(h, b)
}

/// There is an object that a reference of the object at `source` may be
/// set to.
pub open spec fn has_target(h: HeapView, source: usize) -> bool {
    exists|a: usize| targets_of(h, source).contains(a)
}

/// For every object of the heap there is one that its references may be
/// set to.
pub open spec fn all_have_targets(h: HeapView) -> bool {
    forall|b: usize| #[trigger] h.objects.contains_key(b) ==> has_target(h, b)
}

/// What holds of the instruction that `gen_allocate` gives on the heap
/// `h`, whatever object is drawn: it is the allocation of such an object
/// or a collection, and an allocation where the heap has room for ten
/// fields.
pub open spec fn allocates_as(h: HeapView, instr: Instruction) -> bool {
    &&& instr is GC || allocation(instr)
    &&& !crate::allocator::no_room(h, 10) ==> allocation(instr)
}

/// What holds of the instruction that `gen_read` gives on the heap `h`,
/// whatever is drawn: it is the read of a field with a value, or what
/// `gen_allocate` may give; and it is such a read where the heap has an
/// object and every object has a field with a value.
pub open spec fn reads_as(h: HeapView, instr: Instruction) -> bool {
    &&& reads_value(h, instr) || allocates_as(h, instr)
    &&& populated(h) && all_hold_values(h) ==> reads_value(h, instr)
}

/// What holds of the instruction that `gen_write` gives on the heap `h`
/// with the weights `weights`, whatever is drawn: it is a write that
/// keeps the references free of circles, or what `gen_allocate` may
/// give; and it is such a write where the heap has an object and either
/// no reference is ever to be written or every object has one that its
/// references may be set to.
pub open spec fn writes_as(h: HeapView, weights: ProgGenConfig, instr: Instruction) -> bool {
    &&& writes_well(h, instr) || allocates_as(h, instr)
    &&& populated(h) && (weights.prob_write_pointer == 0 || all_have_targets(h)) ==> writes_well(
        h,
        instr,
    )
}

/// What the generator emits for the kind that was drawn, whatever else
/// is drawn for it: for 0 what `gen_allocate` gives, for 1 what
/// `gen_read` gives, for 2 what `gen_write` gives, and a collection for
/// every other kind.
pub open spec fn stepped_as(
    h: HeapView,
    weights: ProgGenConfig,
    kind: usize,
    instr: Instruction,
) -> bool {
    if kind == 0 {
        allocates_as(h, instr)
    } else if kind == 1 {
        reads_as(h, instr)
    } else if kind == 2 {
        writes_as(h, weights, instr)
    } else {
        instr == Instruction::GC
    }
}

/// The allocation of an object as `Object::random` draws it, as a root.
pub open spec fn allocation(instr: Instruction) -> bool {
    instr matches Instruction::Allocate { object, is_root } && is_root && !object@.marked
        && object@.fwd_addr is None && 1 <= object@.fields.len() <= 10 && forall|i: int|
        0 <= i < object@.fields.len() ==> crate::object::drawn(#[trigger] object@.fields[i])
}

/// The read of a field with a value.
pub open spec fn reads_value(h: HeapView, instr: Instruction) -> bool {
    instr matches Instruction::Read { addr } && crate::mutator::field_at(h, addr) matches Some(
        Field::Scalar { value: _ },
    )
}

/// The object at `b` has a field with a value.
pub open spec fn holds_value(h: HeapView, b: usize) -> bool {
    exists|i: int| 0 <= i < h.objects[b].fields.len() && #[trigger] h.objects[b].fields[i] is Scalar
}

/// The write, to a field of an object, of a value from 0 to 9 or of the
/// base of an object that has a field with a value and does not lie on
/// the chain of reads from the object written to.
pub open spec fn writes_well(h: HeapView, instr: Instruction) -> bool {
    instr matches Instruction::Write { addr, value } && crate::mutator::base_of(h, addr) is Some
        && (value <= 9 || (h.objects.contains_key(value) && holds_value(h, value) && !chain(
        h,
        crate::mutator::base_of(h, addr)->0,
        h.objects.len(),
    ).contains(value)))
}

/// What the generator may emit on the heap `h`: a collection, the
/// allocation of a random object, the read of a field with a value, or a
/// write that keeps the references free of circles.
pub open spec fn chosen(h: HeapView, instr: Instruction) -> bool {
    instr is GC || allocation(instr) || reads_value(h, instr) || writes_well(h, instr)
}

/// The program is one that the generator may emit from the heap
/// `before`, instruction by instruction, and it runs without error and
/// leaves the heap `after`.
pub open spec fn generates(
    before: HeapView,
    collector: Collector,
    program: Seq<Instruction>,
    after: HeapView,
) -> bool
    decreases program.len(),
{
    if program.len() == 0 {
        after == before
    } else {
        exists|mid: HeapView|
            generates(before, collector, program.drop_last(), mid) && chosen(mid, program.last())
                && #[trigger] ran(mid, collector, program.last(), after)
    }
}

/// A program that the generator emits runs without error.
pub proof fn lemma_generates_runs(
    before: HeapView,
    collector: Collector,
    program: Seq<Instruction>,
    after: HeapView,
)
    requires
        generates(before, collector, program, after),
    ensures
        runs(before, collector, program, after),
    decreases program.len(),
{
    if program.len() > 0 {
        let mid = choose|mid: HeapView|
            generates(before, collector, program.drop_last(), mid) && chosen(mid, program.last())
                && #[trigger] ran(mid, collector, program.last(), after);
        lemma_generates_runs(before, collector, program.drop_last(), mid);
    }
}

/// The program is one that the generator may emit from the heap
/// `before`, and it runs without error.
pub open spec fn runnable(before: HeapView, collector: Collector, program: Seq<Instruction>) -> bool {
    exists|after: HeapView| #[trigger] leads(before, collector, program, after)
}

/// The program is one that the generator may emit from the heap
/// `before`; it runs without error and leaves the heap `after`.
pub open spec fn leads(
    before: HeapView,
    collector: Collector,
    program: Seq<Instruction>,
    after: HeapView,
) -> bool {
    generates(before, collector, program, after) && runs(before, collector, program, after)
}

/// The address that a read at `addr` leads to, where the read gives the
/// base of an object.
pub open spec fn next_in_chain(h: HeapView, addr: usize) -> Option<usize> {
    match follow(h, addr, h.cells.len()) {
        Ok(value) => if h.objects.contains_key(value) {
            Some(value)
        } else {
            None
        },
        Err(_) => None,
    }
}

/// The addresses of the chain that starts at `addr`, each the value read
/// at the one before it, as far as `steps` steps lead.
pub open spec fn chain(h: HeapView, addr: usize, steps: nat) -> Set<usize>
    decreases steps,
{
    if steps == 0 {
        Set::empty().insert(addr)
    } else {
        match next_in_chain(h, addr) {
            Some(next) => chain(h, next, (steps - 1) as nat).insert(addr),
            None => Set::empty().insert(addr),
        }
    }
}

/// Generates programs: it runs every instruction that it emits on a
/// machine of its own, and so knows which objects live where.
pub struct Simulator {
    vm: VirtualMachine,
    pub rts_cfg: ProgramRuntimeConfig,
    prog_gen_cfg: ProgGenConfig,
}

impl Simulator {
    /// The machine of the simulator is sound and its weights can be drawn from.
    pub closed spec fn wf(&self) -> bool {
        self.vm.wf() && self.prog_gen_cfg.valid()
    }

    /// The heap of the simulator's machine.
    pub closed spec fn heap(&self) -> HeapView {
        self.vm.heap@
    }

    /// The collector of the simulator's machine.
    pub closed spec fn collector(&self) -> Collector {
        self.vm.collector
    }

    /// The length of the programs that the simulator generates.
    pub closed spec fn length(&self) -> usize {
        self.prog_gen_cfg.num_instrs
    }

    /// The configuration of the machine that the programs are for.
    pub closed spec fn config(&self) -> ProgramRuntimeConfig {
        self.rts_cfg
    }

    /// How the simulator generates a program.
    pub closed spec fn weights(&self) -> ProgGenConfig {
        self.prog_gen_cfg
    }

    /// A simulator with an empty heap of the given configuration, and
    /// with the weights of `ProgGenConfig::default`.
    pub fn new(rts_cfg: ProgramRuntimeConfig) -> (simulator: Simulator)
        ensures
            simulator.wf(),
            simulator.config() == rts_cfg,
            simulator.length() == NUM_INSTRS,
            simulator.collector().kind() == rts_cfg.gc_ty,
            simulator.collector() == crate::gc::collector_of(rts_cfg.gc_ty),
            simulator.heap() == crate::heap::fresh(rts_cfg.heap_size, rts_cfg.alignment),
            simulator.heap().objects == Map::<usize, crate::object::ObjectView>::empty(),
            simulator.heap().size() == rts_cfg.heap_size,
            simulator.heap().alignment == rts_cfg.alignment,
    {
        Simulator {
            vm: VirtualMachine::new(
                rts_cfg.alignment,
                rts_cfg.heap_size,
                init_collector(&rts_cfg.gc_ty),
            ),
            rts_cfg,
            prog_gen_cfg: ProgGenConfig::default(),
        }
    }

    /// The configuration of the machine that the programs are for.
    pub fn runtime_config(&self) -> (config: ProgramRuntimeConfig)
        ensures
            config == self.config(),
    {
        self.rts_cfg
    }

    /// A program of as many instructions as the configuration asks for,
    /// each drawn by the weights of its kind. Every instruction has run
    /// without error on the simulator's machine, one after the other.
    pub fn gen_program(&mut self) -> (program: Program)
        requires
            old(self).wf(),
        ensures
            final(self).wf(),
            program@.len() == old(self).length(),
            generates(old(self).heap(), old(self).collector(), program@, final(self).heap()),
            runs(old(self).heap(), old(self).collector(), program@, final(self).heap()),
            final(self).collector() == old(self).collector(),
            final(self).length() == old(self).length(),
            final(self).config() == old(self).config(),
            final(self).weights() == old(self).weights(),
    {
        let mut program: Program = VecDeque::new();
        let mut weights: Vec<u32> = Vec::new();
        weights.push(self.prog_gen_cfg.prob_alloc);
        weights.push(self.prog_gen_cfg.prob_read);
        weights.push(self.prog_gen_cfg.prob_write);
        weights.push(self.prog_gen_cfg.prob_gc);
        proof {
            let w = weights@;
            let w3 = w.drop_last();
            let w2 = w3.drop_last();
            let w1 = w2.drop_last();
            assert(w1.drop_last().len() == 0);
            assert(weight_sum(w1.drop_last()) == 0);
            assert(weight_sum(w1) == w[0]);
            assert(weight_sum(w2) == w[0] + w[1]);
            assert(weight_sum(w3) == w[0] + w[1] + w[2]);
            assert(weight_sum(w) == w[0] + w[1] + w[2] + w[3]);
        }
        let ghost start = self.vm.heap@;
        let mut i: usize = 0;
        while i < self.prog_gen_cfg.num_instrs
            invariant
                self.wf(),
                i <= self.prog_gen_cfg.num_instrs,
                program@.len() == i,
                weights@.len() == 4,
                0 < weight_sum(weights@) <= u32::MAX,
                self.prog_gen_cfg == old(self).prog_gen_cfg,
                self.rts_cfg == old(self).rts_cfg,
                self.vm.collector == old(self).vm.collector,
                start == old(self).vm.heap@,
                generates(start, self.vm.collector, program@, self.vm.heap@),
            decreases self.prog_gen_cfg.num_instrs - i,
        {
            let ghost mid = self.vm.heap@;
            let ghost before = program@;
            let kind = weighted(&weights);
            let frame = self.step(kind);
            let ghost last = frame;
            program.push_back(frame);
            proof {
                assert(program@.drop_last() =~= before);
                assert(program@.last() == last);
                assert(stepped_as(mid, self.prog_gen_cfg, kind, last));
                assert(generates(start, self.vm.collector, program@.drop_last(), mid) && chosen(
                    mid,
                    program@.last(),
                ) && ran(mid, self.vm.collector, program@.last(), self.vm.heap@));
            }
            i += 1;
        }
        proof {
            lemma_generates_runs(start, self.vm.collector, program@, self.vm.heap@);
        }
        program
    }

    /// The instruction for the kind that was drawn: an allocation for 0,
    /// a read for 1, a write for 2, as the generator of that kind makes
    /// it, and a collection for every other kind.
    pub fn step(&mut self, kind: usize) -> (instr: Instruction)
        requires
            old(self).wf(),
        ensures
            final(self).wf(),
            stepped_as(old(self).heap(), old(self).weights(), kind, instr),
            ran(old(self).heap(), old(self).collector(), instr, final(self).heap()),
            final(self).collector() == old(self).collector(),
            final(self).length() == old(self).length(),
            final(self).config() == old(self).config(),
            final(self).weights() == old(self).weights(),
    {
        if kind == 0 {
            self.gen_allocate()
        } else if kind == 1 {
            self.gen_read()
        } else if kind == 2 {
            self.gen_write()
        } else {
            self.emit(Instruction::GC)
        }
    }

    /// Runs the instruction on the simulator's machine and gives it back;
    /// where it fails, a collection is run and given in its place.
    pub fn emit(&mut self, candidate: Instruction) -> (instr: Instruction)
        requires
            old(self).wf(),
        ensures
            final(self).wf(),
            instr == emitted(old(self).heap(), candidate),
            ran(old(self).heap(), old(self).collector(), instr, final(self).heap()),
            final(self).collector() == old(self).collector(),
            final(self).length() == old(self).length(),
            final(self).config() == old(self).config(),
            final(self).weights() == old(self).weights(),
    {
        let ghost before = self.vm.heap@;
        let result = self.vm.tick(&candidate);
        if result.is_ok() {
            proof {
                assert(stepped(before, self.vm.collector, candidate, result, self.vm.heap@));
                if candidate is Allocate {
                    let len = candidate->object@.fields.len() as int;
                    let s = choose|s: usize| #[trigger]
                        crate::allocator::first_fit(before, s, len);
                    assert(crate::allocator::suits(before, s, len));
                }
                assert(succeeds(before, candidate));
            }
            candidate
        } else {
            proof {
                assert(!succeeds(before, candidate));
            }
            let collected = self.vm.tick(&Instruction::GC);
            proof {
                assert(stepped(before, self.vm.collector, Instruction::GC, collected, self.vm.heap@));
            }
            Instruction::GC
        }
    }

    /// The allocation of `object` as a root, or a collection where the
    /// object finds no room.
    pub fn allocation_of(&mut self, object: Object) -> (instr: Instruction)
        requires
            old(self).wf(),
        ensures
            final(self).wf(),
            instr == emitted(old(self).heap(), Instruction::Allocate { object, is_root: true }),
            ran(old(self).heap(), old(self).collector(), instr, final(self).heap()),
            final(self).collector() == old(self).collector(),
            final(self).length() == old(self).length(),
            final(self).config() == old(self).config(),
            final(self).weights() == old(self).weights(),
    {
        self.emit(Instruction::Allocate { object, is_root: true })
    }

    /// The read of the field at `field_offset` of the object at
    /// `obj_addr`, or a collection where that read fails.
    pub fn read_of(&mut self, obj_addr: ObjAddr, field_offset: usize) -> (instr: Instruction)
        requires
            old(self).wf(),
            obj_addr + field_offset <= usize::MAX,
        ensures
            final(self).wf(),
            instr == emitted(
                old(self).heap(),
                Instruction::Read { addr: (obj_addr + field_offset) as usize },
            ),
            ran(old(self).heap(), old(self).collector(), instr, final(self).heap()),
            final(self).collector() == old(self).collector(),
            final(self).length() == old(self).length(),
            final(self).config() == old(self).config(),
            final(self).weights() == old(self).weights(),
    {
        self.emit(Instruction::Read { addr: obj_addr + field_offset })
    }

    /// The write of `value` to the field at `field_offset` of the object
    /// at `obj_addr`, or a collection where that write fails.
    pub fn write_of(&mut self, obj_addr: ObjAddr, field_offset: usize, value: usize) -> (instr:
        Instruction)
        requires
            old(self).wf(),
            obj_addr + field_offset <= usize::MAX,
        ensures
            final(self).wf(),
            instr == emitted(
                old(self).heap(),
                Instruction::Write { addr: (obj_addr + field_offset) as usize, value },
            ),
            ran(old(self).heap(), old(self).collector(), instr, final(self).heap()),
            final(self).collector() == old(self).collector(),
            final(self).length() == old(self).length(),
            final(self).config() == old(self).config(),
            final(self).weights() == old(self).weights(),
    {
        self.emit(Instruction::Write { addr: obj_addr + field_offset, value })
    }

    /// The objects that a reference of the object at `source` may be set
    /// to, in the order of their addresses: those that have a field with
    /// a value and do not lie on the chain of reads from `source`.
    pub fn pointer_targets(&self, source: ObjAddr) -> (targets: Vec<ObjAddr>)
        ensures
            lists(targets@, targets_of(self.heap(), source)),
    {
        let ghost h = self.vm.heap@;
        let ref_chain = self.reference_chain(source);
        let keys = sorted_keys(&self.vm.heap.objects);
        let mut targets: Vec<ObjAddr> = Vec::new();
        let mut i: usize = 0;
        proof {
            assert(self.vm.heap.objects@.dom() =~= h.objects.dom());
        }
        while i < keys.len()
            invariant
                i <= keys.len(),
                h == self.vm.heap@,
                lists(keys@, h.objects.dom()),
                ref_chain@ == chain(h, source, h.objects.len()),
                crate::ordered::ascending(targets@),
                forall|j: int| 0 <= j < targets@.len() && i < keys@.len() ==> #[trigger] targets@[j]
                    < keys@[i as int],
                forall|a: usize|
                    targets@.contains(a) <==> targets_of(h, source).contains(a) && exists|j: int|
                        0 <= j < i && keys@[j] == a,
            decreases keys.len() - i,
        {
            let a = keys[i];
            let ghost old_targets = targets@;
            assert(keys@.contains(keys@[i as int]));
            let object = self.vm.heap.objects.get(&a).unwrap();
            assert(object@ == h.objects[a]);
            let takes = !ref_chain.contains(&a) && has_scalar(object);
            if takes {
                targets.push(a);
            }
            proof {
                assert(takes == targets_of(h, source).contains(a));
                assert forall|x: int, y: int| 0 <= x < y < targets@.len() implies targets@[x]
                    < targets@[y] by {
                    if y == old_targets.len() {
                        assert(old_targets[x] < keys@[i as int]);
                    } else {
                        assert(old_targets[x] < old_targets[y]);
                    }
                }
                assert forall|j: int| 0 <= j < targets@.len() && i + 1 < keys@.len()
                    implies #[trigger] targets@[j] < keys@[i + 1] by {
                    assert(keys@[i as int] < keys@[i + 1]);
                    if j < old_targets.len() {
                        assert(old_targets[j] < keys@[i as int]);
                    }
                }
                assert forall|b: usize|
                    targets@.contains(b) <==> targets_of(h, source).contains(b) && exists|j: int|
                        0 <= j < i + 1 && keys@[j] == b by {
                    if targets@.contains(b) {
                        let k = choose|k: int| 0 <= k < targets@.len() && targets@[k] == b;
                        if k < old_targets.len() {
                            assert(old_targets[k] == b);
                            assert(old_targets.contains(b));
                            let j = choose|j: int| 0 <= j < i && keys@[j] == b;
                            assert(0 <= j < i + 1 && keys@[j] == b);
                        } else {
                            assert(b == a);
                            assert(0 <= i < i + 1 && keys@[i as int] == b);
                        }
                    }
                    if targets_of(h, source).contains(b) && exists|j: int|
                        0 <= j < i + 1 && keys@[j] == b {
                        let j = choose|j: int| 0 <= j < i + 1 && keys@[j] == b;
                        if j < i {
                            assert(old_targets.contains(b));
                            let k = choose|k: int| 0 <= k < old_targets.len() && old_targets[k] == b;
                            assert(targets@[k] == b);
                        } else {
                            assert(b == a);
                            assert(targets@[targets@.len() - 1] == b);
                        }
                    }
                }
            }
            i += 1;
        }
        proof {
            assert forall|a: usize| targets_of(h, source).contains(a) <==> targets@.contains(a) by {
                if targets_of(h, source).contains(a) {
                    assert(keys@.contains(a));
                    let j = choose|j: int| 0 <= j < keys@.len() && keys@[j] == a;
                    assert(0 <= j < i && keys@[j] == a);
                }
            }
        }
        targets
    }

    /// The allocation of a random object as a root, or a collection
    /// where the object finds no room.
    pub fn gen_allocate(&mut self) -> (instr: Instruction)
        requires
            old(self).wf(),
        ensures
            final(self).wf(),
            allocates_as(old(self).heap(), instr),
            ran(old(self).heap(), old(self).collector(), instr, final(self).heap()),
            final(self).collector() == old(self).collector(),
            final(self).length() == old(self).length(),
            final(self).config() == old(self).config(),
            final(self).weights() == old(self).weights(),
    {
        let object = Object::random();
        proof {
            let h = self.vm.heap@;
            let len = object@.fields.len() as int;
            if !crate::allocator::no_room(h, 10) {
                let s = choose|s: usize| crate::allocator::suits(h, s, 10);
                assert(crate::allocator::suits(h, s, len));
            }
        }
        self.allocation_of(object)
    }

    /// A read of a field with a value in a random object; where there is
    /// no object, or the object has no such field, an allocation.
    pub fn gen_read(&mut self) -> (instr: Instruction)
        requires
            old(self).wf(),
        ensures
            final(self).wf(),
            reads_as(old(self).heap(), instr),
            ran(old(self).heap(), old(self).collector(), instr, final(self).heap()),
            final(self).collector() == old(self).collector(),
            final(self).length() == old(self).length(),
            final(self).config() == old(self).config(),
            final(self).weights() == old(self).weights(),
    {
        match self.random_object_address() {
            Some(obj_addr) => {
                let object = self.vm.heap.objects.get(&obj_addr).unwrap();
                let valid_indexes = scalar_offsets(object);
                proof {
                    let h = self.vm.heap@;
                    assert(h.objects.contains_key(obj_addr));
                    if all_hold_values(h) {
                        assert(holds_value(h, obj_addr));
                        let i = choose|i: int|
                            0 <= i < h.objects[obj_addr].fields.len()
                                && #[trigger] h.objects[obj_addr].fields[i] is Scalar;
                        assert(scalar_places(object@.fields).contains(i as usize));
                        assert(valid_indexes@.contains(i as usize));
                    }
                }
                match pick(&valid_indexes) {
                    Some(field_offset) => {
                        assert(self.vm.heap@.objects.contains_key(obj_addr));
                        proof {
                            assert(scalar_places(object@.fields).contains(field_offset));
                            crate::heap::lemma_cover_holds(
                                self.vm.heap@,
                                obj_addr,
                                (obj_addr + field_offset) as usize,
                            );
                            crate::mutator::lemma_base_of(
                                self.vm.heap@,
                                obj_addr,
                                (obj_addr + field_offset) as usize,
                            );
                        }
                        self.read_of(obj_addr, field_offset)
                    },
                    None => self.gen_allocate(),
                }
            },
            None => self.gen_allocate(),
        }
    }

    /// A write to a random field of a random object: by the weights of
    /// the configuration a value from 0 to 9, or the base of another
    /// object, which has a field with a value and does not lie on the
    /// chain of references from the object written to. Where there is no
    /// object, or no such other object, an allocation.
    pub fn gen_write(&mut self) -> (instr: Instruction)
        requires
            old(self).wf(),
        ensures
            final(self).wf(),
            writes_as(old(self).heap(), old(self).weights(), instr),
            ran(old(self).heap(), old(self).collector(), instr, final(self).heap()),
            final(self).collector() == old(self).collector(),
            final(self).length() == old(self).length(),
            final(self).config() == old(self).config(),
            final(self).weights() == old(self).weights(),
    {
        match self.random_object_address() {
            Some(obj_addr) => {
                assert(self.vm.heap@.objects.contains_key(obj_addr));
                let len = self.vm.heap.objects.get(&obj_addr).unwrap().size();
                let field_offset = between(0, len - 1);
                proof {
                    let address = (obj_addr + field_offset) as usize;
                    crate::heap::lemma_cover_holds(self.vm.heap@, obj_addr, address);
                    crate::mutator::lemma_base_of(self.vm.heap@, obj_addr, address);
                }
                let p_scalar = self.prog_gen_cfg.prob_write_scalar;
                let p_total: u32 = p_scalar + self.prog_gen_cfg.prob_write_pointer;
                let value: usize = if between(0, (p_total - 1) as usize) < p_scalar as usize {
                    between(0, 9)
                } else {
                    let possible_addresses = self.pointer_targets(obj_addr);
                    proof {
                        let h = self.vm.heap@;
                        if all_have_targets(h) {
                            assert(has_target(h, obj_addr));
                            let a = choose|a: usize| targets_of(h, obj_addr).contains(a);
                            assert(possible_addresses@.contains(a));
                        }
                    }
                    match pick(&possible_addresses) {
                        Some(new_obj_addr) => {
                            proof {
                                assert(targets_of(self.vm.heap@, obj_addr).contains(new_obj_addr));
                            }
                            new_obj_addr
                        },
                        None => {
                            return self.gen_allocate();
                        },
                    }
                };
                self.write_of(obj_addr, field_offset, value)
            },
            None => self.gen_allocate(),
        }
    }

    /// The base of a random object; `None` where the heap has no object.
    pub fn random_object_address(&self) -> (picked: Option<ObjAddr>)
        ensures
            match picked {
                Some(a) => self.heap().objects.contains_key(a),
                None => self.heap().objects == Map::<usize, crate::object::ObjectView>::empty(),
            },
    {
        let keys = sorted_keys(&self.vm.heap.objects);
        let picked = pick(&keys);
        proof {
            if picked is None {
                assert forall|k: usize| !self.vm.heap@.objects.contains_key(k) by {
                    assert(!keys@.contains(k));
                }
                assert(self.vm.heap@.objects =~= Map::<usize, crate::object::ObjectView>::empty());
            }
        }
        picked
    }

    /// The addresses of the chain of reads that starts at `addr`: each
    /// address is the value read at the one before it, as long as that
    /// value is the base of an object, for as many steps as the heap has
    /// objects.
    pub fn reference_chain(&self, addr: ObjAddr) -> (visited: HashSet<ObjAddr>)
        ensures
            visited@ == chain(self.heap(), addr, self.heap().objects.len()),
    {
        let ghost h = self.vm.heap@;
        let mut visited: HashSet<ObjAddr> = HashSet::new();
        let steps = self.vm.heap.objects.len();
        proof {
            assert(self.vm.heap.objects@.dom() =~= h.objects.dom());
        }
        let mut current: usize = addr;
        let mut left: usize = steps;
        let ghost mut seen: Set<usize> = Set::empty();
        loop
            invariant_except_break
                seen == visited@,
                chain(h, addr, steps as nat) == seen.union(chain(h, current, left as nat)),
            invariant
                h == self.vm.heap@,
            ensures
                visited@ == chain(h, addr, steps as nat),
            decreases left,
        {
            visited.insert(current);
            let next = match self.vm.mutator.read(&self.vm.heap, current) {
                Ok(value) => if self.vm.heap.objects.contains_key(&value) {
                    Some(value)
                } else {
                    None
                },
                Err(_) => None,
            };
            proof {
                assert(next == next_in_chain(h, current));
            }
            match next {
                Some(value) => {
                    if left == 0 {
                        proof {
                            assert(seen.union(chain(h, current, 0)) =~= seen.insert(current));
                        }
                        break ;
                    }
                    proof {
                        assert(seen.union(chain(h, current, left as nat)) =~= seen.insert(
                            current,
                        ).union(chain(h, value, (left - 1) as nat)));
                        seen = seen.insert(current);
                    }
                    current = value;
                    left = left - 1;
                },
                None => {
                    proof {
                        assert(seen.union(chain(h, current, left as nat)) =~= seen.insert(current));
                    }
                    break ;
                },
            }
        }
        visited
    }
}

/// The places of the fields of the object that hold a value, in their
/// order.
pub fn scalar_offsets(object: &Object) -> (offsets: Vec<usize>)
    ensures
        lists(offsets@, scalar_places(object@.fields)),
{
    let mut offsets: Vec<usize> = Vec::new();
    let mut i: usize = 0;
    while i < object.fields.len()
        invariant
            i <= object.fields.len(),
            crate::ordered::ascending(offsets@),
            forall|j: int| 0 <= j < offsets@.len() ==> #[trigger] offsets@[j] < i,
            forall|k: usize|
                offsets@.contains(k) <==> k < i && scalar_places(object@.fields).contains(k),
        decreases object.fields.len() - i,
    {
        let ghost listed = offsets@;
        match object.fields[i] {
            Field::Scalar { value: _ } => {
                offsets.push(i);
            },
            _ => {},
        }
        proof {
            assert forall|k: usize|
                offsets@.contains(k) <==> k < i + 1 && scalar_places(object@.fields).contains(
                    k,
                ) by {
                if offsets@.contains(k) {
                    let j = choose|j: int| 0 <= j < offsets@.len() && offsets@[j] == k;
                    if j < listed.len() {
                        assert(listed[j] == k);
                        assert(listed.contains(k));
                    }
                }
                if k < i + 1 && scalar_places(object@.fields).contains(k) {
                    if k < i {
                        assert(listed.contains(k));
                        let j = choose|j: int| 0 <= j < listed.len() && listed[j] == k;
                        assert(offsets@[j] == k);
                    } else {
                        assert(offsets@[offsets@.len() - 1] == k);
                    }
                }
            }
        }
        i += 1;
    }
    offsets
}

/// Whether the object has a field with a value.
pub fn has_scalar(object: &Object) -> (found: bool)
    ensures
        found == exists|i: int| 0 <= i < object@.fields.len()
            && #[trigger] object@.fields[i] is Scalar,
{
    let mut i: usize = 0;
    while i < object.fields.len()
        invariant
            i <= object.fields.len(),
            forall|j: int| 0 <= j < i ==> !(#[trigger] object@.fields[j] is Scalar),
        decreases object.fields.len() - i,
    {
        match object.fields[i] {
            Field::Scalar { value: _ } => {
                assert(object@.fields[i as int] is Scalar);
                return true;
            },
            _ => {},
        }
        i += 1;
    }
    false
}

} // verus!
