use crate::error::VMError;
use crate::free_list::coalesced;
use crate::free_list::run_covers;
use crate::free_list::run_touches;
use crate::gc::is_phase;
use crate::gc::object_marker::cleared;
use crate::gc::object_marker::is_chain;
use crate::gc::object_marker::lemma_marks_keep_layout;
use crate::gc::object_marker::mark_event;
use crate::gc::object_marker::mark_trace;
use crate::gc::object_marker::marks_logged;
use crate::gc::object_marker::reachable;
use crate::gc::object_marker::same_but_marks;
use crate::gc::object_marker::ObjectMarker;
use crate::gc::stats::GCStats;
use crate::gc::GCEvent;
use crate::gc::GCType;
use crate::gc::GarbageCollector;
use crate::heap::in_span;
use crate::heap::lemma_shaped_fits;
use crate::heap::Heap;
use crate::heap::HeapView;
use crate::object::ObjAddr;
use crate::object::ObjectView;
use crate::ordered::lists;
use crate::ordered::sorted_keys;
use vstd::prelude::*;

verus! {

/// The mark-sweep collector: it marks what is reachable from the roots,
/// frees every other object where it lies, and coalesces the free list.
#[derive(Debug)]
pub struct MarkSweep {}

/// The object at `b` is unmarked and starts below `limit`.
pub open spec fn dead_below(h: HeapView, b: usize, limit: int) -> bool {
    h.objects.contains_key(b) && !h.objects[b].marked && b < limit
}

/// The address unit `x` lies in an unmarked object that starts below `limit`.
pub open spec fn in_dead(h: HeapView, limit: int, x: int) -> bool {
    exists|b: usize| #[trigger] dead_below(h, b, limit) && in_span(h, b, x)
}

/// The boundary point `p` lies in an unmarked object that starts below
/// `limit`, its two ends included.
pub open spec fn at_dead(h: HeapView, limit: int, p: int) -> bool {
    exists|b: usize| #[trigger]
        dead_below(h, b, limit) && b <= p <= b + h.objects[b].fields.len()
}

/// The free event of the object at `b`.
pub open spec fn free_event(h: HeapView, b: usize) -> GCEvent {
    GCEvent::FreeObject { addr: b, size: h.objects[b].fields.len() as usize }
}

/// The address of a free event; -1 for another event.
pub open spec fn freed_addr(event: GCEvent) -> int {
    match event {
        GCEvent::FreeObject { addr, size } => addr as int,
        _ => -1,
    }
}

/// `event` is the free event of an unmarked object of `h` below `limit`.
pub open spec fn frees_dead(event: GCEvent, h: HeapView, limit: int) -> bool {
    exists|b: usize| #[trigger] dead_below(h, b, limit) && event == free_event(h, b)
}

/// `log` is `log0` followed by the free events of the unmarked objects
/// of `h` that start below `limit`, in the order of their addresses.
pub open spec fn frees_logged(log0: Seq<GCEvent>, log: Seq<GCEvent>, h: HeapView, limit: int) -> bool {
    &&& log0.len() <= log.len()
    &&& forall|i: int| 0 <= i < log0.len() ==> #[trigger] log[i] == log0[i]
    &&& forall|i: int| log0.len() <= i < log.len() ==> frees_dead(#[trigger] log[i], h, limit)
    &&& forall|b: usize| #[trigger]
        dead_below(h, b, limit) ==> exists|i: int|
            log0.len() <= i < log.len() && #[trigger] log[i] == free_event(h, b)
    &&& forall|i: int, j: int|
        log0.len() <= i < j < log.len() ==> freed_addr(#[trigger] log[i]) < freed_addr(
            #[trigger] log[j],
        )
}

/// `cur` is `h` after the sweep has passed the objects that start below
/// `limit`: the unmarked ones are freed, the marked ones have lost their
/// mark.
pub open spec fn sweeping(h: HeapView, cur: HeapView, limit: int) -> bool {
    &&& forall|b: usize|
        cur.objects.contains_key(b) <==> h.objects.contains_key(b) && (h.objects[b].marked || b
            >= limit)
    &&& forall|b: usize| #[trigger]
        cur.objects.contains_key(b) ==> cur.objects[b] == if b < limit {
            ObjectView { marked: false, ..h.objects[b] }
        } else {
            h.objects[b]
        }
    &&& forall|r: usize| cur.roots.contains(r) <==> h.roots.contains(r) && !dead_below(h, r, limit)
    &&& forall|x: int| run_covers(cur.free, x) <==> run_covers(h.free, x) || in_dead(h, limit, x)
    &&& forall|p: int| run_touches(cur.free, p) <==> run_touches(h.free, p) || at_dead(h, limit, p)
    &&& cur.cells == h.cells
    &&& cur.alignment == h.alignment
}

/// `after` is `h` once every unmarked object was freed and every mark cleared.
pub open spec fn swept(h: HeapView, after: HeapView) -> bool {
    sweeping(h, after, usize::MAX + 1) && coalesced(after.free)
}

proof fn lemma_sweeping_gap(h: HeapView, cur: HeapView, from: int, limit: int)
    requires
        sweeping(h, cur, from),
        from <= limit,
        forall|b: usize| #[trigger] h.objects.contains_key(b) ==> !(from <= b < limit),
    ensures
        sweeping(h, cur, limit),
{
    assert forall|b: usize| dead_below(h, b, limit) <==> dead_below(h, b, from) by {}
    assert forall|x: int| in_dead(h, limit, x) <==> in_dead(h, from, x) by {
        if in_dead(h, limit, x) {
            let b = choose|b: usize| #[trigger] dead_below(h, b, limit) && in_span(h, b, x);
            assert(dead_below(h, b, from));
        }
        if in_dead(h, from, x) {
            let b = choose|b: usize| #[trigger] dead_below(h, b, from) && in_span(h, b, x);
            assert(dead_below(h, b, limit));
        }
    }
    assert forall|p: int| at_dead(h, limit, p) <==> at_dead(h, from, p) by {
        if at_dead(h, limit, p) {
            let b = choose|b: usize| #[trigger]
                dead_below(h, b, limit) && b <= p <= b + h.objects[b].fields.len();
            assert(dead_below(h, b, from));
        }
        if at_dead(h, from, p) {
            let b = choose|b: usize| #[trigger]
                dead_below(h, b, from) && b <= p <= b + h.objects[b].fields.len();
            assert(dead_below(h, b, limit));
        }
    }
    assert forall|b: usize| #[trigger] cur.objects.contains_key(b) implies cur.objects[b] == if b
        < limit {
        ObjectView { marked: false, ..h.objects[b] }
    } else {
        h.objects[b]
    } by {
        assert(h.objects.contains_key(b));
    }
}

proof fn lemma_sweeping_freed(h: HeapView, cur: HeapView, next: HeapView, k: usize)
    requires
        sweeping(h, cur, k as int),
        h.objects.contains_key(k),
        !h.objects[k].marked,
        next.objects == cur.objects.remove(k),
        next.roots == cur.roots.remove(k),
        next.cells == cur.cells,
        next.alignment == cur.alignment,
        forall|x: int| run_covers(next.free, x) <==> run_covers(cur.free, x) || in_span(cur, k, x),
        forall|p: int|
            run_touches(next.free, p) <==> run_touches(cur.free, p) || (k <= p <= k
                + cur.objects[k].fields.len()),
    ensures
        sweeping(h, next, k + 1),
{
    assert(cur.objects.contains_key(k));
    assert(cur.objects[k] == h.objects[k]);
    assert(dead_below(h, k, k + 1));
    assert forall|x: int| run_covers(next.free, x) <==> run_covers(h.free, x) || in_dead(
        h,
        k + 1,
        x,
    ) by {
        if in_dead(h, k + 1, x) {
            let b = choose|b: usize| #[trigger] dead_below(h, b, k + 1) && in_span(h, b, x);
            if b != k {
                assert(dead_below(h, b, k as int));
                assert(in_dead(h, k as int, x));
            }
        }
        if in_dead(h, k as int, x) {
            let b = choose|b: usize| #[trigger] dead_below(h, b, k as int) && in_span(h, b, x);
            assert(dead_below(h, b, k + 1));
        }
        if in_span(cur, k, x) {
            assert(dead_below(h, k, k + 1) && in_span(h, k, x));
        }
    }
    assert forall|p: int| run_touches(next.free, p) <==> run_touches(h.free, p) || at_dead(
        h,
        k + 1,
        p,
    ) by {
        if at_dead(h, k + 1, p) {
            let b = choose|b: usize| #[trigger]
                dead_below(h, b, k + 1) && b <= p <= b + h.objects[b].fields.len();
            if b != k {
                assert(dead_below(h, b, k as int));
                assert(at_dead(h, k as int, p));
            }
        }
        if at_dead(h, k as int, p) {
            let b = choose|b: usize| #[trigger]
                dead_below(h, b, k as int) && b <= p <= b + h.objects[b].fields.len();
            assert(dead_below(h, b, k + 1));
        }
        if k <= p <= k + cur.objects[k].fields.len() {
            assert(dead_below(h, k, k + 1) && k <= p <= k + h.objects[k].fields.len());
        }
    }
    assert forall|b: usize| #[trigger] next.objects.contains_key(b) implies next.objects[b]
        == if b < k + 1 {
        ObjectView { marked: false, ..h.objects[b] }
    } else {
        h.objects[b]
    } by {
        assert(cur.objects.contains_key(b));
    }
    assert forall|r: usize|
        next.roots.contains(r) <==> h.roots.contains(r) && !dead_below(h, r, k + 1) by {
        if r != k {
            assert(dead_below(h, r, k + 1) <==> dead_below(h, r, k as int));
        }
    }
}

proof fn lemma_sweeping_kept(h: HeapView, cur: HeapView, next: HeapView, k: usize)
    requires
        sweeping(h, cur, k as int),
        h.objects.contains_key(k),
        h.objects[k].marked,
        next == (HeapView {
            objects: cur.objects.insert(k, ObjectView { marked: false, ..cur.objects[k] }),
            ..cur
        }),
    ensures
        sweeping(h, next, k + 1),
        same_but_marks(cur, next),
{
    assert(cur.objects.contains_key(k));
    assert(next.objects.dom() =~= cur.objects.dom());
    assert forall|b: usize| dead_below(h, b, k + 1) <==> dead_below(h, b, k as int) by {}
    assert forall|x: int| in_dead(h, k + 1, x) <==> in_dead(h, k as int, x) by {
        if in_dead(h, k + 1, x) {
            let b = choose|b: usize| #[trigger] dead_below(h, b, k + 1) && in_span(h, b, x);
            assert(dead_below(h, b, k as int));
        }
        if in_dead(h, k as int, x) {
            let b = choose|b: usize| #[trigger] dead_below(h, b, k as int) && in_span(h, b, x);
            assert(dead_below(h, b, k + 1));
        }
    }
    assert forall|p: int| at_dead(h, k + 1, p) <==> at_dead(h, k as int, p) by {
        if at_dead(h, k + 1, p) {
            let b = choose|b: usize| #[trigger]
                dead_below(h, b, k + 1) && b <= p <= b + h.objects[b].fields.len();
            assert(dead_below(h, b, k as int));
        }
        if at_dead(h, k as int, p) {
            let b = choose|b: usize| #[trigger]
                dead_below(h, b, k as int) && b <= p <= b + h.objects[b].fields.len();
            assert(dead_below(h, b, k + 1));
        }
    }
    assert forall|b: usize| #[trigger] next.objects.contains_key(b) implies next.objects[b]
        == if b < k + 1 {
        ObjectView { marked: false, ..h.objects[b] }
    } else {
        h.objects[b]
    } by {
        assert(cur.objects.contains_key(b));
    }
}

proof fn lemma_frees_push(log0: Seq<GCEvent>, log: Seq<GCEvent>, h: HeapView, k: usize)
    requires
        frees_logged(log0, log, h, k as int),
        h.objects.contains_key(k),
        !h.objects[k].marked,
    ensures
        frees_logged(log0, log.push(free_event(h, k)), h, k + 1),
{
    let log2 = log.push(free_event(h, k));
    assert(dead_below(h, k, k + 1));
    assert forall|i: int| log0.len() <= i < log2.len() implies frees_dead(
        #[trigger] log2[i],
        h,
        k + 1,
    ) by {
        if i < log.len() {
            assert(frees_dead(log[i], h, k as int));
            let b = choose|b: usize| #[trigger]
                dead_below(h, b, k as int) && log[i] == free_event(h, b);
            assert(dead_below(h, b, k + 1));
        }
    }
    assert forall|b: usize| #[trigger] dead_below(h, b, k + 1) implies exists|i: int|
        log0.len() <= i < log2.len() && #[trigger] log2[i] == free_event(h, b) by {
        if b == k {
            assert(log2[log.len() as int] == free_event(h, b));
        } else {
            assert(dead_below(h, b, k as int));
            let i = choose|i: int|
                log0.len() <= i < log.len() && #[trigger] log[i] == free_event(h, b);
            assert(log2[i] == free_event(h, b));
        }
    }
    assert forall|i: int, j: int| log0.len() <= i < j < log2.len() implies freed_addr(
        #[trigger] log2[i],
    ) < freed_addr(#[trigger] log2[j]) by {
        if j == log.len() {
            assert(frees_dead(log[i], h, k as int));
            let b = choose|b: usize| #[trigger]
                dead_below(h, b, k as int) && log[i] == free_event(h, b);
        } else {
            assert(freed_addr(log[i]) < freed_addr(log[j]));
        }
    }
}

proof fn lemma_frees_gap(log0: Seq<GCEvent>, log: Seq<GCEvent>, h: HeapView, from: int, limit: int)
    requires
        frees_logged(log0, log, h, from),
        from <= limit,
        forall|b: usize|
            #[trigger] h.objects.contains_key(b) && !h.objects[b].marked ==> !(from <= b < limit),
    ensures
        frees_logged(log0, log, h, limit),
{
    assert forall|i: int| log0.len() <= i < log.len() implies frees_dead(
        #[trigger] log[i],
        h,
        limit,
    ) by {
        assert(frees_dead(log[i], h, from));
        let b = choose|b: usize| #[trigger] dead_below(h, b, from) && log[i] == free_event(h, b);
        assert(dead_below(h, b, limit));
    }
    assert forall|b: usize| #[trigger] dead_below(h, b, limit) implies exists|i: int|
        log0.len() <= i < log.len() && #[trigger] log[i] == free_event(h, b) by {
        assert(dead_below(h, b, from));
    }
}

/// What a mark-sweep collection makes of a heap: the reachable objects
/// stay where they are, unmarked; the cells of the others are free; the
/// free list is coalesced.
pub open spec fn mark_swept(before: HeapView, after: HeapView) -> bool {
    &&& forall|b: usize|
        #![trigger after.objects.contains_key(b)]
        after.objects.contains_key(b) <==> before.objects.contains_key(b) && reachable(before, b)
    &&& forall|b: usize| #[trigger]
        after.objects.contains_key(b) ==> after.objects[b] == ObjectView {
            marked: false,
            ..before.objects[b]
        }
    &&& after.roots == before.roots
    &&& coalesced(after.free)
    &&& forall|x: int|
        run_covers(after.free, x) <==> run_covers(before.free, x) || exists|b: usize| #[trigger]
            before.objects.contains_key(b) && !reachable(before, b) && in_span(before, b, x)
    &&& after.cells == before.cells
    &&& after.alignment == before.alignment
}

impl Default for MarkSweep {
    fn default() -> Self {
        Self::new()
    }
}

impl ObjectMarker for MarkSweep {
    fn mark_from_roots(&self, heap: &mut Heap, eventlog: &mut Vec<GCEvent>) {
        crate::gc::object_marker::mark_from_roots(heap, eventlog)
    }

    fn mark(&self, addr: &ObjAddr, heap: &mut Heap, eventlog: &mut Vec<GCEvent>) {
        crate::gc::object_marker::mark(addr, heap, eventlog)
    }
}

impl MarkSweep {
    /// A mark-sweep collector.
    pub fn new() -> Self {
        MarkSweep {  }
    }

    /// Frees every unmarked object, in the order of the addresses, and
    /// logs a free event for each; clears the mark of every other object;
    /// coalesces the free list.
    pub fn sweep(&self, heap: &mut Heap, eventlog: &mut Vec<GCEvent>)
        requires
            old(heap)@.fits(),
        ensures
            swept(old(heap)@, final(heap)@),
            frees_logged(old(eventlog)@, final(eventlog)@, old(heap)@, usize::MAX + 1),
            final(heap)@.fits(),
            old(heap)@.shaped() ==> final(heap)@.shaped(),
    {
        let ghost h = heap@;
        let ghost log0 = eventlog@;
        let keys = sorted_keys(&heap.objects);
        let mut i: usize = 0;
        let ghost mut limit: int = 0;
        proof {
            assert(sweeping(h, h, 0));
        }
        while i < keys.len()
            invariant
                i <= keys.len(),
                lists(keys@, h.objects.dom()),
                0 <= limit <= usize::MAX + 1,
                i < keys.len() ==> limit <= keys@[i as int],
                forall|b: usize| #[trigger]
                    h.objects.contains_key(b) && b >= limit ==> i < keys.len() && b
                        >= keys@[i as int],
                sweeping(h, heap@, limit),
                frees_logged(log0, eventlog@, h, limit),
                heap@.fits(),
                h.shaped() ==> heap@.shaped(),
            decreases keys.len() - i,
        {
            let k = keys[i];
            let ghost cur = heap@;
            let ghost log = eventlog@;
            proof {
                assert(keys@.contains(keys@[i as int]));
                lemma_sweeping_gap(h, cur, limit, k as int);
                lemma_frees_gap(log0, log, h, limit, k as int);
                assert(cur.objects.contains_key(k));
            }
            let object = heap.objects.get(&k).unwrap();
            let size = object.size();
            if object.header.marked {
                crate::gc::object_marker::unmark(heap, k);
                proof {
                    lemma_sweeping_kept(h, cur, heap@, k);
                    lemma_marks_keep_layout(cur, heap@);
                    lemma_frees_gap(log0, log, h, k as int, k + 1);
                }
            } else {
                let freed = heap.free_object(k);
                eventlog.push(GCEvent::FreeObject { addr: k, size });
                proof {
                    assert(freed is Ok);
                    lemma_sweeping_freed(h, cur, heap@, k);
                    lemma_frees_push(log0, log, h, k);
                    assert(eventlog@ == log.push(free_event(h, k)));
                }
            }
            proof {
                limit = k + 1;
                assert forall|b: usize| #[trigger]
                    h.objects.contains_key(b) && b >= limit implies i + 1 < keys.len() && b
                    >= keys@[i + 1] by {
                    assert(keys@.contains(b));
                    let j = choose|j: int| 0 <= j < keys@.len() && keys@[j] == b;
                    if j <= i {
                        assert(keys@[j] <= keys@[i as int]);
                    }
                    if j > i + 1 {
                        assert(keys@[i + 1] < keys@[j]);
                    }
                }
                if i + 1 < keys.len() {
                    assert(keys@[i as int] < keys@[i + 1]);
                }
            }
            i += 1;
        }
        proof {
            lemma_sweeping_gap(h, heap@, limit, usize::MAX + 1);
            lemma_frees_gap(log0, eventlog@, h, limit, usize::MAX + 1);
        }
        let ghost cur = heap@;
        heap.merge_free_ranges();
        proof {
            let after = heap@;
            assert(after.objects == cur.objects);
            if h.shaped() {
                assert forall|x: int| after.in_object(x) <==> cur.in_object(x) by {
                    if after.in_object(x) {
                        let b = choose|b: usize| #[trigger]
                            after.objects.contains_key(b) && b <= x < b
                                + after.objects[b].fields.len();
                        assert(cur.objects.contains_key(b));
                    }
                    if cur.in_object(x) {
                        let b = choose|b: usize| #[trigger]
                            cur.objects.contains_key(b) && b <= x < b + cur.objects[b].fields.len();
                        assert(after.objects.contains_key(b));
                    }
                }
                assert(after.shaped());
            }
        }
    }
}

impl GarbageCollector for MarkSweep {
    open spec fn collected(&self, before: HeapView, after: HeapView) -> bool {
        mark_swept(before, after)
    }

    open spec fn reported(&self, before: HeapView, events: Seq<GCEvent>) -> bool {
        exists|k: int|
            {
                &&& 2 <= k < events.len() - 1
                &&& is_phase(events[0], "MarkSweep: START"@)
                &&& is_phase(events[1], "Mark from roots"@)
                &&& #[trigger] is_phase(events[k], "sweep"@)
                &&& is_phase(events.last(), "MarkSweep: END"@)
                &&& events.subrange(2, k) == mark_trace(before)
                &&& marks_reachable(events.subrange(2, k), before)
                &&& frees_unreachable(events.subrange(k + 1, events.len() - 1), before)
            }
    }

    fn collect(&self, heap: &mut Heap) -> (done: Result<(GCStats, Vec<GCEvent>), VMError>) {
        let ghost before = heap@;
        let mut eventlog: Vec<GCEvent> = Vec::new();
        eventlog.push(GCEvent::phase("MarkSweep: START".to_owned()));
        eventlog.push(GCEvent::phase("Mark from roots".to_owned()));
        let ghost log1 = eventlog@;
        self.mark_from_roots(heap, &mut eventlog);
        let ghost marked = heap@;
        let ghost log2 = eventlog@;
        proof {
            lemma_marks_keep_layout(before, marked);
            lemma_shaped_fits(marked);
        }
        eventlog.push(GCEvent::phase("sweep".to_owned()));
        let ghost log3 = eventlog@;
        self.sweep(heap, &mut eventlog);
        let ghost log4 = eventlog@;
        eventlog.push(GCEvent::phase("MarkSweep: END".to_owned()));
        proof {
            lemma_mark_swept(before, marked, heap@);
            lemma_mark_sweep_log(before, marked, log1, log2, log4, eventlog@);
        }
        Ok((GCStats::new(), eventlog))
    }

    open spec fn kind_of(&self) -> GCType {
        GCType::MarkSweep
    }

    fn ty(&self) -> (kind: GCType) {
        GCType::MarkSweep
    }
}

/// `marks` holds one mark event for each reachable object, and nothing else.
pub open spec fn marks_reachable(marks: Seq<GCEvent>, before: HeapView) -> bool {
    &&& forall|i: int| 0 <= i < marks.len() ==> marks_one(#[trigger] marks[i], before)
    &&& forall|b: usize|
        #[trigger] before.objects.contains_key(b) && reachable(before, b) ==> exists|i: int|
            0 <= i < marks.len() && #[trigger] marks[i] == mark_event(before, b)
    &&& forall|i: int, j: int| 0 <= i < j < marks.len()
        ==> #[trigger] marks[i] != #[trigger] marks[j]
}

/// `event` is the mark event of the reachable object at `b`.
pub open spec fn tells_mark(event: GCEvent, before: HeapView, b: usize) -> bool {
    before.objects.contains_key(b) && reachable(before, b) && event == mark_event(before, b)
}

/// `event` is the mark event of a reachable object.
pub open spec fn marks_one(event: GCEvent, before: HeapView) -> bool {
    exists|b: usize| #[trigger] tells_mark(event, before, b)
}

/// `event` is the free event of an unreachable object.
pub open spec fn frees_one(event: GCEvent, before: HeapView) -> bool {
    exists|b: usize| #[trigger] tells_free(event, before, b)
}

/// `event` is the free event of the unreachable object at `b`.
pub open spec fn tells_free(event: GCEvent, before: HeapView, b: usize) -> bool {
    before.objects.contains_key(b) && !reachable(before, b) && event == free_event(before, b)
}

/// `frees` holds one free event for each unreachable object, in the
/// order of the addresses, and nothing else.
pub open spec fn frees_unreachable(frees: Seq<GCEvent>, before: HeapView) -> bool {
    &&& forall|i: int| 0 <= i < frees.len() ==> frees_one(#[trigger] frees[i], before)
    &&& forall|b: usize|
        #[trigger] before.objects.contains_key(b) && !reachable(before, b) ==> exists|i: int|
            0 <= i < frees.len() && #[trigger] frees[i] == free_event(before, b)
    &&& forall|i: int, j: int|
        0 <= i < j < frees.len() ==> freed_addr(#[trigger] frees[i]) < freed_addr(
            #[trigger] frees[j],
        )
}

/// Marking what is reachable and sweeping the rest is a mark-sweep collection.
pub proof fn lemma_mark_swept(before: HeapView, marked: HeapView, after: HeapView)
    requires
        before.wf(),
        same_but_marks(before, marked),
        forall|b: usize| #[trigger]
            marked.objects.contains_key(b) ==> (marked.objects[b].marked <==> reachable(before, b)),
        swept(marked, after),
        marked.shaped() ==> after.shaped(),
    ensures
        mark_swept(before, after),
        after.wf(),
{
    lemma_marks_keep_layout(before, marked);
    assert(marked.objects.dom() =~= before.objects.dom());
    assert forall|b: usize|
        after.objects.contains_key(b) <==> before.objects.contains_key(b) && reachable(
            before,
            b,
        ) by {
        if before.objects.contains_key(b) {
            assert(marked.objects.contains_key(b));
        }
    }
    assert forall|b: usize| #[trigger] after.objects.contains_key(b) implies after.objects[b]
        == (ObjectView { marked: false, ..before.objects[b] }) by {
        assert(marked.objects.contains_key(b));
    }
    assert forall|r: usize| after.roots.contains(r) <==> before.roots.contains(r) by {
        if before.roots.contains(r) && dead_below(marked, r, usize::MAX + 1) {
            assert(before.objects.contains_key(r));
            let p = seq![r];
            assert(is_chain(before, p));
            assert(reachable(before, r));
        }
    }
    assert(after.roots =~= before.roots);
    assert forall|x: int|
        run_covers(after.free, x) <==> run_covers(before.free, x) || exists|b: usize| #[trigger]
            before.objects.contains_key(b) && !reachable(before, b) && in_span(before, b, x) by {
        if in_dead(marked, usize::MAX + 1, x) {
            let b = choose|b: usize| #[trigger]
                dead_below(marked, b, usize::MAX + 1) && in_span(marked, b, x);
            assert(before.objects.contains_key(b) && !reachable(before, b) && in_span(
                before,
                b,
                x,
            ));
        }
        if exists|b: usize| #[trigger]
            before.objects.contains_key(b) && !reachable(before, b) && in_span(before, b, x) {
            let b = choose|b: usize| #[trigger]
                before.objects.contains_key(b) && !reachable(before, b) && in_span(before, b, x);
            assert(marked.objects.contains_key(b));
            assert(dead_below(marked, b, usize::MAX + 1) && in_span(marked, b, x));
        }
    }
    assert forall|b: usize| #[trigger] after.objects.contains_key(b)
        implies !after.objects[b].marked
        && after.objects[b].fwd_addr is None by {
        assert(before.objects.contains_key(b));
    }
}

/// The marks of a collection's log: the events from the third one up to
/// the one at `k`, where `log` goes on as `log2` began.
pub proof fn lemma_marks_part(
    before: HeapView,
    marked: HeapView,
    log1: Seq<GCEvent>,
    log2: Seq<GCEvent>,
    log: Seq<GCEvent>,
)
    requires
        before.clean(),
        same_but_marks(before, marked),
        forall|b: usize| #[trigger]
            marked.objects.contains_key(b) ==> (marked.objects[b].marked <==> reachable(before, b)),
        log1.len() == 2,
        marks_logged(log1, log2, cleared(before), marked),
        log2 == log1 + mark_trace(before),
        log2.len() <= log.len(),
        forall|i: int| 0 <= i < log2.len() ==> log[i] == log2[i],
    ensures
        marks_reachable(log.subrange(2, log2.len() as int), before),
        log.subrange(2, log2.len() as int) == mark_trace(before),
        log[0] == log1[0],
        log[1] == log1[1],
{
    let k = log2.len() as int;
    let marks = log.subrange(2, k);
    let c = cleared(before);
    assert(marks =~= mark_trace(before)) by {
        assert forall|i: int| 0 <= i < marks.len() implies marks[i] == mark_trace(before)[i] by {
            assert(marks[i] == log[i + 2]);
            assert(log[i + 2] == log2[i + 2]);
        }
    }
    assert(marked.objects.dom() =~= before.objects.dom());
    assert(log[0] == log2[0] && log2[0] == log1[0]);
    assert(log[1] == log2[1] && log2[1] == log1[1]);
    assert forall|i: int| 0 <= i < marks.len() implies marks_one(#[trigger] marks[i], before) by {
        assert(marks[i] == log[i + 2]);
        assert(log[i + 2] == log2[i + 2]);
        assert(crate::gc::object_marker::marks_fresh(log2[i + 2], c, marked));
        let b = choose|b: usize|
            #[trigger] marked.objects.contains_key(b) && marked.objects[b].marked
                && !c.objects[b].marked && log2[i + 2] == mark_event(c, b);
        assert(tells_mark(marks[i], before, b));
    }
    assert forall|b: usize|
        #[trigger] before.objects.contains_key(b) && reachable(before, b) implies exists|i: int|
        0 <= i < marks.len() && #[trigger] marks[i] == mark_event(before, b) by {
        assert(marked.objects.contains_key(b));
        assert(!c.objects[b].marked);
        let i = choose|i: int|
            log1.len() <= i < log2.len() && #[trigger] log2[i] == mark_event(c, b);
        assert(log[i] == log2[i]);
        assert(marks[i - 2] == log[i]);
    }
    assert forall|i: int, j: int| 0 <= i < j < marks.len() implies #[trigger] marks[i]
        != #[trigger] marks[j] by {
        assert(marks[i] == log[i + 2] && marks[j] == log[j + 2]);
        assert(log[i + 2] == log2[i + 2]);
        assert(log[j + 2] == log2[j + 2]);
        assert(log2[i + 2] != log2[j + 2]);
    }
}

/// The log of a mark-sweep collection.
pub proof fn lemma_mark_sweep_log(
    before: HeapView,
    marked: HeapView,
    log1: Seq<GCEvent>,
    log2: Seq<GCEvent>,
    log4: Seq<GCEvent>,
    log5: Seq<GCEvent>,
)
    requires
        before.clean(),
        same_but_marks(before, marked),
        forall|b: usize| #[trigger]
            marked.objects.contains_key(b) ==> (marked.objects[b].marked <==> reachable(before, b)),
        log1.len() == 2,
        is_phase(log1[0], "MarkSweep: START"@),
        is_phase(log1[1], "Mark from roots"@),
        marks_logged(log1, log2, cleared(before), marked),
        log2 == log1 + mark_trace(before),
        log4.len() > log2.len(),
        is_phase(log4[log2.len() as int], "sweep"@),
        frees_logged(log2.push(log4[log2.len() as int]), log4, marked, usize::MAX + 1),
        log5.len() == log4.len() + 1,
        forall|i: int| 0 <= i < log4.len() ==> log5[i] == log4[i],
        is_phase(log5.last(), "MarkSweep: END"@),
    ensures
        exists|k: int|
            {
                &&& 2 <= k < log5.len() - 1
                &&& is_phase(log5[0], "MarkSweep: START"@)
                &&& is_phase(log5[1], "Mark from roots"@)
                &&& #[trigger] is_phase(log5[k], "sweep"@)
                &&& is_phase(log5.last(), "MarkSweep: END"@)
                &&& log5.subrange(2, k) == mark_trace(before)
                &&& marks_reachable(log5.subrange(2, k), before)
                &&& frees_unreachable(log5.subrange(k + 1, log5.len() - 1), before)
            },
{
    let k = log2.len() as int;
    let log3 = log2.push(log4[k]);
    let marks = log5.subrange(2, k);
    assert(marks =~= mark_trace(before)) by {
        assert forall|i: int| 0 <= i < marks.len() implies marks[i] == mark_trace(before)[i] by {
            assert(marks[i] == log5[i + 2]);
            assert(log4[i + 2] == log3[i + 2] && log3[i + 2] == log2[i + 2]);
        }
    }
    let frees = log5.subrange(k + 1, log5.len() - 1);
    let c = cleared(before);
    assert(marked.objects.dom() =~= before.objects.dom());
    assert(log4[0] == log3[0] && log3[0] == log2[0] && log2[0] == log1[0]);
    assert(log4[1] == log3[1] && log3[1] == log2[1] && log2[1] == log1[1]);
    assert forall|i: int| 0 <= i < marks.len() implies marks_one(#[trigger] marks[i], before) by {
        assert(marks[i] == log5[i + 2]);
        assert(log4[i + 2] == log3[i + 2] && log3[i + 2] == log2[i + 2]);
        assert(crate::gc::object_marker::marks_fresh(log2[i + 2], c, marked));
        let b = choose|b: usize|
            #[trigger] marked.objects.contains_key(b) && marked.objects[b].marked
                && !c.objects[b].marked && log2[i + 2] == mark_event(c, b);
        assert(tells_mark(marks[i], before, b));
    }
    assert forall|b: usize|
        #[trigger] before.objects.contains_key(b) && reachable(before, b) implies exists|i: int|
        0 <= i < marks.len() && #[trigger] marks[i] == mark_event(before, b) by {
        assert(marked.objects.contains_key(b));
        assert(!c.objects[b].marked);
        let i = choose|i: int|
            log1.len() <= i < log2.len() && #[trigger] log2[i] == mark_event(c, b);
        assert(log4[i] == log3[i] && log3[i] == log2[i]);
        assert(marks[i - 2] == log5[i]);
    }
    assert forall|i: int, j: int| 0 <= i < j < marks.len() implies #[trigger] marks[i]
        != #[trigger] marks[j] by {
        assert(marks[i] == log5[i + 2] && marks[j] == log5[j + 2]);
        assert(log4[i + 2] == log3[i + 2] && log3[i + 2] == log2[i + 2]);
        assert(log4[j + 2] == log3[j + 2] && log3[j + 2] == log2[j + 2]);
        assert(log2[i + 2] != log2[j + 2]);
    }
    assert forall|i: int| 0 <= i < frees.len() implies frees_one(#[trigger] frees[i], before) by {
        assert(frees[i] == log5[i + k + 1]);
        assert(frees_dead(log4[i + k + 1], marked, usize::MAX + 1));
        let b = choose|b: usize| #[trigger]
            dead_below(marked, b, usize::MAX + 1) && log4[i + k + 1] == free_event(marked, b);
        assert(tells_free(frees[i], before, b));
    }
    assert forall|b: usize|
        #[trigger] before.objects.contains_key(b) && !reachable(before, b) implies exists|i: int|
        0 <= i < frees.len() && #[trigger] frees[i] == free_event(before, b) by {
        assert(marked.objects.contains_key(b));
        assert(dead_below(marked, b, usize::MAX + 1));
        let i = choose|i: int|
            log3.len() <= i < log4.len() && #[trigger] log4[i] == free_event(marked, b);
        assert(frees[i - k - 1] == log5[i]);
    }
    assert forall|i: int, j: int| 0 <= i < j < frees.len() implies freed_addr(#[trigger] frees[i])
        < freed_addr(#[trigger] frees[j]) by {
        assert(frees[i] == log5[i + k + 1] && frees[j] == log5[j + k + 1]);
        assert(freed_addr(log4[i + k + 1]) < freed_addr(log4[j + k + 1]));
    }
    assert(log5[k] == log4[k]);
    assert(is_phase(log5[k], "sweep"@));
}

/// Every object of a chain from a root is reachable.
pub proof fn lemma_chain_reachable(h: HeapView, p: Seq<usize>, i: int)
    requires
        is_chain(h, p),
        h.roots.contains(p[0]),
        0 <= i < p.len(),
    ensures
        h.objects.contains_key(p[i]),
        reachable(h, p[i]),
{
    crate::gc::object_marker::lemma_chain_objects(h, p, i);
    crate::gc::object_marker::lemma_chain_take(h, p, i + 1);
    let q = p.take(i + 1);
    assert(is_chain(h, q) && h.roots.contains(q[0]) && q.last() == p[i]);
}

/// What a mark-sweep collection keeps is reachable afterwards as it was before.
pub proof fn lemma_kept_reachable(before: HeapView, after: HeapView, b: usize)
    requires
        mark_swept(before, after),
        after.objects.contains_key(b),
    ensures
        reachable(after, b),
{
    assert(reachable(before, b));
    let p = choose|p: Seq<usize>|
        #[trigger] is_chain(before, p) && before.roots.contains(p[0]) && p.last() == b;
    assert forall|i: int| 0 <= i < p.len() implies after.objects.contains_key(#[trigger] p[i]) by {
        lemma_chain_reachable(before, p, i);
    }
    assert forall|i: int| 0 <= i < p.len() - 1 implies crate::gc::object_marker::refers(
        after,
        #[trigger] p[i],
        p[i + 1],
    ) by {
        assert(crate::gc::object_marker::refers(before, p[i], p[i + 1]));
        assert(after.objects.contains_key(p[i]));
        assert(after.objects.contains_key(p[i + 1]));
        let j = choose|j: int|
            0 <= j < before.objects[p[i]].fields.len() && #[trigger] before.objects[p[i]].fields[j]
                == (crate::object::Field::Ref { addr: crate::object::Address::Ptr(p[i + 1]) });
        assert(after.objects[p[i]].fields[j] == (crate::object::Field::Ref {
            addr: crate::object::Address::Ptr(p[i + 1]),
        }));
    }
    assert(after.objects.contains_key(p[0]));
    assert(is_chain(after, p));
}

/// A second mark-sweep collection changes nothing: after a collection
/// every object is reachable, so the next one frees nothing.
pub proof fn lemma_mark_sweep_twice(h: HeapView, h1: HeapView, h2: HeapView)
    requires
        h1.wf(),
        h2.wf(),
        mark_swept(h, h1),
        mark_swept(h1, h2),
    ensures
        h2 == h1,
{
    assert forall|b: usize| h2.objects.contains_key(b) <==> h1.objects.contains_key(b) by {
        if h1.objects.contains_key(b) {
            lemma_kept_reachable(h, h1, b);
        }
    }
    assert forall|b: usize| h2.objects.contains_key(b) implies h2.objects[b] == h1.objects[b] by {
        assert(h1.objects.contains_key(b));
    }
    assert(h2.objects =~= h1.objects);
    crate::heap::lemma_layout_unique(h1, h2);
}

/// A mark-sweep collection moves nothing: a read that stays within
/// reachable objects gives afterwards what it gave before.
pub proof fn lemma_mark_sweep_keeps_reads(h: HeapView, h1: HeapView, addr: usize, hops: nat)
    requires
        h.wf(),
        mark_swept(h, h1),
        crate::gc::mark_compact::lives(h, addr, hops),
    ensures
        crate::mutator::follow(h1, addr, hops) == crate::mutator::follow(h, addr, hops),
    decreases hops,
{
    let b = crate::mutator::base_of(h, addr)->0;
    let holder = choose|b: usize| h.holds(b, addr);
    assert(h.holds(holder, addr));
    crate::mutator::lemma_base_of(h, holder, addr);
    assert(h1.objects.contains_key(b));
    assert(h1.holds(b, addr)) by {
        assert forall|k: usize| #[trigger] h1.objects.contains_key(k) && k <= addr implies k
            <= b by {
            assert(h.objects.contains_key(k));
        }
    }
    crate::mutator::lemma_base_of(h1, b, addr);
    match h.objects[b].fields[addr - b] {
        crate::object::Field::Ref { addr: crate::object::Address::Ptr(next) } => {
            if hops > 0 {
                lemma_mark_sweep_keeps_reads(h, h1, next, (hops - 1) as nat);
            }
        },
        _ => {},
    }
}

} // verus!
