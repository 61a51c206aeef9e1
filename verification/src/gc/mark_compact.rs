use crate::error::VMError;
use crate::gc::compact::lisp_2::compacted;
use crate::gc::is_phase;
use crate::gc::object_marker::lemma_marks_keep_layout;
use crate::gc::object_marker::reachable;
use crate::gc::object_marker::ObjectMarker;
use crate::gc::stats::GCStats;
use crate::gc::GCEvent;
use crate::gc::GCType;
use crate::gc::GarbageCollector;
use crate::heap::Heap;
use crate::heap::HeapView;
use crate::object::ObjAddr;
use crate::object::ObjectView;
use vstd::prelude::*;

verus! {

/// How a mark-compact collector moves the objects that it keeps.
#[derive(Debug, Clone, Copy, PartialEq, Eq, Structural)]
pub enum CompactAlgorithm {
    /// Two fingers: an object from the far end is moved into the place
    /// of a dead object at the near end, where it fits.
    TwoFinger,
    /// Three passes: the objects slide down in their order.
    Lisp2,
}

/// The mark-compact collector: it marks what is reachable from the roots
/// and then compacts the heap with its algorithm.
#[derive(Debug)]
pub struct MarkCompact {
    algo: CompactAlgorithm,
}

/// The heap with the reachable objects marked, and no others.
pub open spec fn traced_heap(h: HeapView) -> HeapView {
    HeapView {
        objects: Map::new(
            |b: usize| h.objects.contains_key(b),
            |b: usize| ObjectView { marked: reachable(h, b), ..h.objects[b] },
        ),
        ..h
    }
}

/// The heap with the reachable objects marked differs from the heap in
/// the marks only.
pub proof fn lemma_traced(h: HeapView)
    ensures
        crate::gc::object_marker::same_but_marks(h, traced_heap(h)),
        h.shaped() ==> traced_heap(h).shaped(),
        forall|b: usize| #[trigger]
            traced_heap(h).objects.contains_key(b) ==> traced_heap(h).objects[b].marked
                == reachable(h, b),
        forall|b: usize, a: usize| traced_heap(h).holds(b, a) <==> h.holds(b, a),
        forall|a: usize| crate::mutator::base_of(traced_heap(h), a)
            == crate::mutator::base_of(h, a),
{
    let m = traced_heap(h);
    assert(m.objects.dom() =~= h.objects.dom());
    lemma_marks_keep_layout(h, m);
    assert forall|a: usize| crate::mutator::base_of(m, a) == crate::mutator::base_of(h, a) by {
        if crate::mutator::base_of(h, a) is Some {
            let b = choose|b: usize| h.holds(b, a);
            assert(h.holds(b, a));
            assert(m.holds(b, a));
            crate::mutator::lemma_base_of(h, b, a);
            crate::mutator::lemma_base_of(m, b, a);
        } else if crate::mutator::base_of(m, a) is Some {
            let b = choose|b: usize| m.holds(b, a);
            assert(m.holds(b, a));
            assert(h.holds(b, a));
        }
    }
}

/// A read at `addr` that follows up to `hops` references stays within
/// reachable objects: the address lies in a reachable object, and so
/// does every address that the read goes on to.
pub open spec fn lives(h: HeapView, addr: usize, hops: nat) -> bool
    decreases hops,
{
    match crate::mutator::base_of(h, addr) {
        Some(b) => reachable(h, b) && match h.objects[b].fields[addr - b] {
            crate::object::Field::Ref { addr: crate::object::Address::Ptr(next) } => hops > 0
                ==> lives(h, next, (hops - 1) as nat),
            _ => true,
        },
        None => false,
    }
}

impl Default for MarkCompact {
    fn default() -> (collector: Self)
        ensures
            collector.algorithm() == CompactAlgorithm::TwoFinger,
    {
        Self::new(CompactAlgorithm::TwoFinger)
    }
}

impl MarkCompact {
    /// The algorithm of this collector.
    pub closed spec fn algorithm(&self) -> CompactAlgorithm {
        self.algo
    }

    /// The collector with this algorithm.
    pub closed spec fn of(algo: CompactAlgorithm) -> MarkCompact {
        MarkCompact { algo }
    }

    /// A collector is the collector with its algorithm.
    pub proof fn lemma_of(self)
        ensures
            self == Self::of(self.algorithm()),
            Self::of(self.algorithm()).algorithm() == self.algorithm(),
    {
    }

    /// A collector that compacts with the given algorithm.
    pub fn new(compact: CompactAlgorithm) -> (collector: Self)
        ensures
            collector.algorithm() == compact,
            collector == Self::of(compact),
    {
        MarkCompact { algo: compact }
    }

    /// The algorithm of this collector.
    pub fn algo(&self) -> (algo: CompactAlgorithm)
        ensures
            algo == self.algorithm(),
    {
        self.algo
    }

    /// Whether `after` is what this collector's algorithm makes of the
    /// heap `marked`, in which the objects to keep are marked.
    pub open spec fn compacts(&self, marked: HeapView, after: HeapView) -> bool {
        match self.algorithm() {
            CompactAlgorithm::TwoFinger => crate::gc::compact::two_finger::compacted(marked, after),
            CompactAlgorithm::Lisp2 => compacted(marked, after),
        }
    }

    /// Whether `tail` is the log of what this collector's algorithm does
    /// to the heap `marked`.
    pub open spec fn logs(&self, marked: HeapView, tail: Seq<crate::gc::GCEventView>) -> bool {
        match self.algorithm() {
            CompactAlgorithm::TwoFinger => crate::gc::compact::two_finger::finger_logged(
                marked,
                tail,
            ),
            CompactAlgorithm::Lisp2 => tail == crate::gc::compact::lisp_2::slide_log(marked),
        }
    }

    /// Compacts the heap with this collector's algorithm.
    pub fn compact(&self, heap: &mut Heap, eventlog: &mut Vec<GCEvent>)
        requires
            old(heap)@.shaped(),
            forall|b: usize| #[trigger]
                old(heap)@.objects.contains_key(b) ==> old(heap)@.objects[b].fwd_addr is None,
        ensures
            self.compacts(old(heap)@, final(heap)@),
            final(heap)@.wf(),
            old(eventlog)@.len() <= final(eventlog)@.len(),
            forall|i: int|
                0 <= i < old(eventlog)@.len() ==> final(eventlog)@[i] == old(eventlog)@[i],
            exists|tail: Seq<crate::gc::GCEventView>|
                crate::gc::log_of(final(eventlog)@) == crate::gc::log_of(old(eventlog)@) + tail
                    && #[trigger] self.logs(old(heap)@, tail),
    {
        let ghost h = heap@;
        let ghost log0 = crate::gc::log_of(eventlog@);
        match self.algo {
            CompactAlgorithm::TwoFinger => {
                crate::gc::compact::two_finger::compact(heap, eventlog);
                proof {
                    let tail = choose|tail: Seq<crate::gc::GCEventView>|
                        crate::gc::log_of(eventlog@) == log0 + tail
                            && #[trigger] crate::gc::compact::two_finger::finger_logged(h, tail);
                    assert(crate::gc::log_of(eventlog@) == log0 + tail && self.logs(h, tail));
                }
            },
            CompactAlgorithm::Lisp2 => {
                crate::gc::compact::lisp_2::compact(heap, eventlog);
                proof {
                    let tail = crate::gc::compact::lisp_2::slide_log(h);
                    assert(crate::gc::log_of(eventlog@) == log0 + tail && self.logs(h, tail));
                }
            },
        }
    }
}

impl ObjectMarker for MarkCompact {
    fn mark_from_roots(&self, heap: &mut Heap, eventlog: &mut Vec<GCEvent>) {
        crate::gc::object_marker::mark_from_roots(heap, eventlog)
    }

    fn mark(&self, addr: &ObjAddr, heap: &mut Heap, eventlog: &mut Vec<GCEvent>) {
        crate::gc::object_marker::mark(addr, heap, eventlog)
    }
}

impl GarbageCollector for MarkCompact {
    open spec fn collected(&self, before: HeapView, after: HeapView) -> bool {
        self.compacts(traced_heap(before), after)
    }

    open spec fn reported(&self, before: HeapView, events: Seq<GCEvent>) -> bool {
        exists|k: int|
            {
                &&& 2 <= k < events.len() - 1
                &&& is_phase(events[0], "MarkCompact: START"@)
                &&& is_phase(events[1], "Mark from roots"@)
                &&& #[trigger] is_phase(events[k], "compact"@)
                &&& is_phase(events.last(), "MarkCompact: END"@)
                &&& events.subrange(2, k) == crate::gc::object_marker::mark_trace(before)
                &&& crate::gc::mark_sweep::marks_reachable(events.subrange(2, k), before)
                &&& self.logs(
                    traced_heap(before),
                    crate::gc::log_of(events).subrange(k + 1, events.len() - 1),
                )
            }
    }

    fn collect(&self, heap: &mut Heap) -> (done: Result<(GCStats, Vec<GCEvent>), VMError>) {
        let ghost before = heap@;
        let mut eventlog: Vec<GCEvent> = Vec::new();
        eventlog.push(GCEvent::phase("MarkCompact: START".to_owned()));
        eventlog.push(GCEvent::phase("Mark from roots".to_owned()));
        let ghost log1 = eventlog@;
        self.mark_from_roots(heap, &mut eventlog);
        let ghost marked = heap@;
        let ghost log2 = eventlog@;
        proof {
            lemma_marks_keep_layout(before, heap@);
            assert(heap@.objects =~= traced_heap(before).objects);
            assert(heap@ == traced_heap(before));
        }
        eventlog.push(GCEvent::phase("compact".to_owned()));
        let ghost log3 = eventlog@;
        self.compact(heap, &mut eventlog);
        let ghost log4 = eventlog@;
        eventlog.push(GCEvent::phase("MarkCompact: END".to_owned()));
        proof {
            let k = log2.len() as int;
            crate::gc::mark_sweep::lemma_marks_part(before, marked, log1, log2, eventlog@);
            assert(is_phase(eventlog@[k], "compact"@));
            let tail = choose|tail: Seq<crate::gc::GCEventView>|
                crate::gc::log_of(log4) == crate::gc::log_of(log3) + tail && #[trigger] self.logs(
                    marked,
                    tail,
                );
            assert(crate::gc::log_of(eventlog@).subrange(k + 1, eventlog@.len() - 1) =~= tail) by {
                assert(crate::gc::log_of(log4).len() == log4.len());
                assert(crate::gc::log_of(log3).len() == log3.len());
                assert forall|i: int| 0 <= i < tail.len() implies crate::gc::log_of(
                    eventlog@,
                ).subrange(k + 1, eventlog@.len() - 1)[i] == tail[i] by {
                    assert(crate::gc::log_of(log4)[i + k + 1] == tail[i]);
                    assert(eventlog@[i + k + 1] == log4[i + k + 1]);
                }
            }
        }
        Ok((GCStats::new(), eventlog))
    }

    open spec fn kind_of(&self) -> GCType {
        GCType::MarkCompact(self.algorithm())
    }

    fn ty(&self) -> (kind: GCType) {
        GCType::MarkCompact(self.algo)
    }
}

} // verus!
