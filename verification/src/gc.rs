use crate::error::VMError;
use crate::heap::Heap;
use vstd::prelude::*;

pub mod common;
pub mod laws;
pub mod compact;
pub mod mark_compact;
pub mod mark_sweep;
pub mod object_marker;
pub mod stats;

verus! {

/// The collectors the machine can run with.
#[derive(Debug, Clone, Copy, PartialEq, Eq, Structural)]
pub enum GCType {
    MarkSweep,
    MarkCompact(mark_compact::CompactAlgorithm),
}

/// The collector that goes by this name, if there is one.
pub open spec fn kind_named(name: Seq<char>) -> Option<GCType> {
    if name == "MarkSweep"@ {
        Some(GCType::MarkSweep)
    } else if name == "MarkCompact_TwoFinger"@ {
        Some(GCType::MarkCompact(mark_compact::CompactAlgorithm::TwoFinger))
    } else if name == "MarkCompact_Lisp2"@ {
        Some(GCType::MarkCompact(mark_compact::CompactAlgorithm::Lisp2))
    } else {
        None
    }
}

impl GCType {
    /// The name under which this collector is written down.
    pub open spec fn name_spec(self) -> Seq<char> {
        match self {
            GCType::MarkSweep => "MarkSweep"@,
            GCType::MarkCompact(mark_compact::CompactAlgorithm::TwoFinger) => "MarkCompact_TwoFinger"@,
            GCType::MarkCompact(mark_compact::CompactAlgorithm::Lisp2) => "MarkCompact_Lisp2"@,
        }
    }

    /// The name under which this collector is written down.
    pub fn name(&self) -> (text: String)
        ensures
            text@ == self.name_spec(),
    {
        match self {
            GCType::MarkSweep => "MarkSweep".to_owned(),
            GCType::MarkCompact(mark_compact::CompactAlgorithm::TwoFinger) => "MarkCompact_TwoFinger".to_owned(),
            GCType::MarkCompact(mark_compact::CompactAlgorithm::Lisp2) => "MarkCompact_Lisp2".to_owned(),
        }
    }

    /// The collector that goes by `name`; `None` where no collector does.
    pub fn named(name: &String) -> (kind: Option<GCType>)
        ensures
            kind == kind_named(name@),
    {
        if *name == "MarkSweep".to_owned() {
            Some(GCType::MarkSweep)
        } else if *name == "MarkCompact_TwoFinger".to_owned() {
            Some(GCType::MarkCompact(mark_compact::CompactAlgorithm::TwoFinger))
        } else if *name == "MarkCompact_Lisp2".to_owned() {
            Some(GCType::MarkCompact(mark_compact::CompactAlgorithm::Lisp2))
        } else {
            None
        }
    }
}

/// A collector is found again by its name.
pub proof fn lemma_name_named(kind: GCType)
    ensures
        kind_named(kind.name_spec()) == Some(kind),
{
    reveal_strlit("MarkSweep");
    reveal_strlit("MarkCompact_TwoFinger");
    reveal_strlit("MarkCompact_Lisp2");
    assert("MarkSweep"@.len() == 9);
    assert("MarkCompact_TwoFinger"@.len() == 21);
    assert("MarkCompact_Lisp2"@.len() == 17);
}

/// One step of a collection, in the order in which the steps were taken.
#[derive(Debug)]
pub enum GCEvent {
    /// A phase of the collection begins or ends.
    GCPhase { msg: String },
    /// The object at `addr` was found reachable.
    MarkObject { addr: usize, size: usize },
    /// The object at `addr` was freed.
    FreeObject { addr: usize, size: usize },
    /// The object at `from` was moved to `to`.
    MoveObject { from: usize, to: usize, size: usize },
    /// A reference to `from` was rewritten to refer to `to`.
    UpdateFwdPtr { from: usize, to: usize },
}

/// An event as a mathematical value.
pub enum GCEventView {
    GCPhase { msg: Seq<char> },
    MarkObject { addr: usize, size: usize },
    FreeObject { addr: usize, size: usize },
    MoveObject { from: usize, to: usize, size: usize },
    UpdateFwdPtr { from: usize, to: usize },
}

impl View for GCEvent {
    type V = GCEventView;

    open spec fn view(&self) -> GCEventView {
        match self {
            GCEvent::GCPhase { msg } => GCEventView::GCPhase { msg: msg@ },
            GCEvent::MarkObject { addr, size } => GCEventView::MarkObject {
                addr: *addr,
                size: *size,
            },
            GCEvent::FreeObject { addr, size } => GCEventView::FreeObject {
                addr: *addr,
                size: *size,
            },
            GCEvent::MoveObject { from, to, size } => GCEventView::MoveObject {
                from: *from,
                to: *to,
                size: *size,
            },
            GCEvent::UpdateFwdPtr { from, to } => GCEventView::UpdateFwdPtr { from: *from, to: *to },
        }
    }
}

impl GCEvent {
    /// The event that announces a phase.
    pub fn phase(msg: String) -> (event: Self)
        ensures
            is_phase(event, msg@),
    {
        GCEvent::GCPhase { msg }
    }
}

/// `event` announces the phase with this text.
pub open spec fn is_phase(event: GCEvent, text: Seq<char>) -> bool {
    event@ == phase(text)
}

/// The event that announces the phase with this text.
pub open spec fn phase(text: Seq<char>) -> GCEventView {
    GCEventView::GCPhase { msg: text }
}

/// The events of a log, each as a mathematical value.
pub open spec fn log_of(log: Seq<GCEvent>) -> Seq<GCEventView> {
    Seq::new(log.len(), |i: int| log[i]@)
}

/// The log with one more event.
pub proof fn lemma_log_push(log: Seq<GCEvent>, event: GCEvent)
    ensures
        log_of(log.push(event)) == log_of(log).push(event@),
{
    assert(log_of(log.push(event)) =~= log_of(log).push(event@));
}

/// A garbage collector: it reclaims the objects of a heap that no chain of
/// references from a root leads to.
pub trait GarbageCollector {
    /// Whether `after` is the heap that a collection makes of `before`.
    spec fn collected(&self, before: crate::heap::HeapView, after: crate::heap::HeapView) -> bool;

    /// Whether `events` is a log of the steps of a collection of `before`.
    spec fn reported(&self, before: crate::heap::HeapView, events: Seq<GCEvent>) -> bool;

    /// Collects the heap. A collection of a well-formed heap succeeds and
    /// leaves a well-formed heap; it returns the log of its steps.
    fn collect(&self, heap: &mut Heap) -> (done: Result<(stats::GCStats, Vec<GCEvent>), VMError>)
        requires
            old(heap)@.wf(),
        ensures
            done matches Ok(report) && self.reported(old(heap)@, report.1@),
            final(heap)@.wf(),
            self.collected(old(heap)@, final(heap)@),
    ;

    /// The kind of this collector.
    spec fn kind_of(&self) -> GCType;

    /// Which collector this is.
    fn ty(&self) -> (kind: GCType)
        ensures
            kind == self.kind_of(),
    ;
}

/// The collector of a machine: one of the kinds of `GCType`.
#[derive(Debug)]
pub enum Collector {
    MarkSweep(mark_sweep::MarkSweep),
    MarkCompact(mark_compact::MarkCompact),
}

/// The collector of a kind.
pub open spec fn collector_of(kind: GCType) -> Collector {
    match kind {
        GCType::MarkSweep => Collector::MarkSweep(mark_sweep::MarkSweep {  }),
        GCType::MarkCompact(algo) => Collector::MarkCompact(mark_compact::MarkCompact::of(algo)),
    }
}

/// A collector of the given kind.
pub fn init_collector(gc_ty: &GCType) -> (collector: Collector)
    ensures
        collector.kind() == *gc_ty,
        collector == collector_of(*gc_ty),
{
    match gc_ty {
        GCType::MarkSweep => Collector::MarkSweep(mark_sweep::MarkSweep::new()),
        GCType::MarkCompact(algo) => Collector::MarkCompact(
            mark_compact::MarkCompact::new(*algo),
        ),
    }
}

impl Collector {
    /// The kind of this collector.
    pub open spec fn kind(&self) -> GCType {
        match self {
            Collector::MarkSweep(_) => GCType::MarkSweep,
            Collector::MarkCompact(c) => GCType::MarkCompact(c.algorithm()),
        }
    }

    /// A fresh collector of the same kind.
    pub fn new_instance(&self) -> (fresh: Collector)
        ensures
            fresh.kind() == self.kind(),
            fresh == *self,
    {
        proof {
            if let Collector::MarkCompact(c) = self {
                c.lemma_of();
            }
        }
        match self {
            Collector::MarkSweep(_) => Collector::MarkSweep(mark_sweep::MarkSweep::new()),
            Collector::MarkCompact(c) => Collector::MarkCompact(
                mark_compact::MarkCompact::new(c.algo()),
            ),
        }
    }
}

impl GarbageCollector for Collector {
    open spec fn collected(
        &self,
        before: crate::heap::HeapView,
        after: crate::heap::HeapView,
    ) -> bool {
        match self {
            Collector::MarkSweep(c) => c.collected(before, after),
            Collector::MarkCompact(c) => c.collected(before, after),
        }
    }

    open spec fn reported(&self, before: crate::heap::HeapView, events: Seq<GCEvent>) -> bool {
        match self {
            Collector::MarkSweep(c) => c.reported(before, events),
            Collector::MarkCompact(c) => c.reported(before, events),
        }
    }

    fn collect(&self, heap: &mut Heap) -> (done: Result<(stats::GCStats, Vec<GCEvent>), VMError>) {
        match self {
            Collector::MarkSweep(c) => c.collect(heap),
            Collector::MarkCompact(c) => c.collect(heap),
        }
    }

    open spec fn kind_of(&self) -> GCType {
        self.kind()
    }

    fn ty(&self) -> (kind: GCType) {
        match self {
            Collector::MarkSweep(c) => c.ty(),
            Collector::MarkCompact(c) => c.ty(),
        }
    }
}

} // verus!
