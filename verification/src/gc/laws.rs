use crate::gc::compact::finger_laws::lemma_fingers_keep_reads;
use crate::gc::compact::finger_laws::lemma_fingers_twice;
use crate::gc::compact::slide_laws::lemma_slide_keeps_reads;
use crate::gc::compact::slide_laws::lemma_slide_twice;
use crate::gc::mark_compact::lives;
use crate::gc::mark_compact::CompactAlgorithm;
use crate::gc::mark_sweep::lemma_mark_sweep_keeps_reads;
use crate::gc::mark_sweep::lemma_mark_sweep_twice;
use crate::gc::Collector;
use crate::gc::GarbageCollector;
use crate::heap::HeapView;
use crate::gc::object_marker::reachable;
use crate::mutator::base_of;
use crate::mutator::follow;
use vstd::prelude::*;

verus! {

/// A collection right after a collection changes nothing: whatever the
/// collector, two collections with nothing in between leave the heap
/// that the first one left.
pub proof fn lemma_collect_twice(collector: Collector, h: HeapView, h1: HeapView, h2: HeapView)
    requires
        h.wf(),
        h1.wf(),
        h2.wf(),
        collector.collected(h, h1),
        collector.collected(h1, h2),
    ensures
        h2 == h1,
{
    match collector {
        Collector::MarkSweep(c) => {
            lemma_mark_sweep_twice(h, h1, h2);
        },
        Collector::MarkCompact(c) => {
            match c.algorithm() {
                CompactAlgorithm::TwoFinger => {
                    lemma_fingers_twice(h, h1, h2);
                },
                CompactAlgorithm::Lisp2 => {
                    lemma_slide_twice(h, h1, h2);
                },
            }
        },
    }
}

/// A collection keeps what reads give: whatever the collector, for a
/// read that gives a value, and that stays within reachable objects on
/// its way, there is an address at which a read gives the same value
/// after the collection.
pub proof fn lemma_collect_keeps_reads(
    collector: Collector,
    h: HeapView,
    h1: HeapView,
    addr: usize,
    hops: nat,
)
    requires
        h.wf(),
        collector.collected(h, h1),
        lives(h, addr, hops),
        follow(h, addr, hops) is Ok,
    ensures
        exists|at: usize| #[trigger] follow(h1, at, hops) == follow(h, addr, hops),
{
    match collector {
        Collector::MarkSweep(c) => {
            lemma_mark_sweep_keeps_reads(h, h1, addr, hops);
            assert(follow(h1, addr, hops) == follow(h, addr, hops));
        },
        Collector::MarkCompact(c) => {
            match c.algorithm() {
                CompactAlgorithm::TwoFinger => {
                    lemma_fingers_keep_reads(h, h1, addr, hops);
                },
                CompactAlgorithm::Lisp2 => {
                    lemma_slide_keeps_reads(h, h1, addr, hops);
                    let at = crate::gc::compact::slide_laws::moved(
                        crate::gc::mark_compact::traced_heap(h),
                        addr,
                    );
                    assert(follow(h1, at, hops) == follow(h, addr, hops));
                },
            }
        },
    }
}

/// Where the reachable object at `b` of the heap `h` lies after a
/// collection by `collector`: where it lay, after a mark-sweep
/// collection; where the fingers have moved it, after a compaction with
/// two fingers; behind the reachable objects before it, after a
/// compaction by sliding.
pub open spec fn new_base(collector: Collector, h: HeapView, b: usize) -> usize {
    let m = crate::gc::mark_compact::traced_heap(h);
    match collector {
        Collector::MarkSweep(c) => b,
        Collector::MarkCompact(c) => match c.algorithm() {
            CompactAlgorithm::TwoFinger => crate::gc::compact::finger_laws::place(
                crate::gc::compact::two_finger::moves(
                    m,
                    crate::ordered::ascending_of(m.objects.dom()),
                ),
                b,
            ),
            CompactAlgorithm::Lisp2 => crate::gc::compact::slide_laws::place(m, b),
        },
    }
}

/// A collection keeps what chains of references lead to: whatever the
/// collector, a read at an address of the object at `b` that gives a
/// value, and that stays within reachable objects on its way, gives the
/// same value after the collection at the new base of the object plus
/// the old offset, which is an address of the object at its new base.
pub proof fn lemma_collect_keeps_chains(
    collector: Collector,
    h: HeapView,
    h1: HeapView,
    b: usize,
    addr: usize,
    hops: nat,
)
    requires
        h.wf(),
        collector.collected(h, h1),
        base_of(h, addr) == Some(b),
        lives(h, addr, hops),
        follow(h, addr, hops) is Ok,
    ensures
        h1.holds(new_base(collector, h, b), (new_base(collector, h, b) + (addr - b)) as usize),
        follow(h1, (new_base(collector, h, b) + (addr - b)) as usize, hops) == follow(
            h,
            addr,
            hops,
        ),
{
    let m = crate::gc::mark_compact::traced_heap(h);
    let holder = choose|holder: usize| h.holds(holder, addr);
    assert(h.holds(holder, addr));
    crate::mutator::lemma_base_of(h, holder, addr);
    assert(h.holds(b, addr));
    assert(reachable(h, b));
    crate::gc::mark_compact::lemma_traced(h);
    crate::gc::object_marker::lemma_marks_keep_layout(h, m);
    assert(m.holds(b, addr));
    assert(m.objects.contains_key(b));
    assert(m.objects[b].marked);
    match collector {
        Collector::MarkSweep(c) => {
            lemma_mark_sweep_keeps_reads(h, h1, addr, hops);
            assert(h1.objects.contains_key(b));
            assert(h1.holds(b, addr)) by {
                assert forall|k: usize| #[trigger] h1.objects.contains_key(k) && k <= addr implies k
                    <= b by {
                    assert(h.objects.contains_key(k));
                }
            }
        },
        Collector::MarkCompact(c) => {
            match c.algorithm() {
                CompactAlgorithm::TwoFinger => {
                    let keys = choose|keys: Seq<usize>| #[trigger]
                        crate::ordered::lists(keys, m.objects.dom())
                            && crate::gc::compact::two_finger::rearranged(
                            m,
                            crate::gc::compact::two_finger::moves(m, keys),
                            h1,
                        );
                    crate::ordered::lemma_ascending_of(keys, m.objects.dom());
                    let done = crate::gc::compact::two_finger::moves(m, keys);
                    crate::gc::compact::finger_laws::lemma_moved_holds(m, done, h1, b, addr);
                    crate::gc::compact::finger_laws::lemma_moves_keep_reads(
                        h,
                        done,
                        h1,
                        addr,
                        hops,
                    );
                },
                CompactAlgorithm::Lisp2 => {
                    crate::gc::compact::slide_laws::lemma_moved_holds(m, h1, b, addr);
                    lemma_slide_keeps_reads(h, h1, addr, hops);
                },
            }
        },
    }
}

} // verus!
