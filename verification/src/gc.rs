//! The collector's operations as free functions on a collector that the
//! caller holds, for a program that keeps one collector per thread.
use vstd::prelude::*;

use crate::collector::{GcEnv, Mark};
use crate::model::{Gc, GcView};

verus! {

/// `GcEnv::new_gc` on `gc`.
pub fn new_gc<T: Mark>(gc: &mut GcEnv<T>, v: T) -> (g: Gc)
    requires
        old(gc).wf(),
    ensures
        final(gc).wf(),
        exists|mid: GcView<T>| #[trigger]
            mid.auto_collected_from(old(gc)@) && final(gc)@.allocated_from(mid, g, v),
        g@ == old(gc)@.env.colors.len(),
        final(gc)@.env.roots == old(gc)@.env.roots,
        final(gc)@.live(g),
        final(gc)@.env.is_white(g),
        final(gc)@.content(g) == v,
{
    gc.new_gc(v)
}

/// `GcEnv::new_ref` on `gc`.
pub fn new_ref<T: Mark>(gc: &mut GcEnv<T>, o: Gc, r: Gc)
    requires
        old(gc).wf(),
        old(gc)@.live(o),
        old(gc)@.live(r),
    ensures
        final(gc).wf(),
        if old(gc)@.env.is_black(o) && old(gc)@.env.is_white(r) {
            &&& final(gc)@.env == old(gc)@.env.moved_spec(o, crate::model::GcColor::Grey)
            &&& final(gc)@.env.colors == old(gc)@.env.colors.update(o@ as int, crate::model::GcColor::Grey)
            &&& final(gc)@.env.roots == old(gc)@.env.roots
            &&& final(gc)@.env.white_is_black == old(gc)@.env.white_is_black
            &&& final(gc)@.env.auto == old(gc)@.env.auto
            &&& final(gc)@.heap == old(gc)@.heap
        } else {
            final(gc)@ == old(gc)@
        },
        !(final(gc)@.env.is_black(o) && final(gc)@.env.is_white(r)),
{
    gc.new_ref(o, r);
}

/// `GcEnv::mark` on `gc`.
pub fn mark<T: Mark>(gc: &mut GcEnv<T>, u: usize)
    requires
        old(gc).wf(),
    ensures
        final(gc).wf(),
        final(gc)@.marked_from(old(gc)@, u),
{
    gc.mark(u);
}

/// `GcEnv::sweep` on `gc`.
pub fn sweep<T: Mark>(gc: &mut GcEnv<T>)
    requires
        old(gc).wf(),
    ensures
        final(gc).wf(),
        final(gc)@.swept_from(old(gc)@),
{
    gc.sweep();
}

/// `GcEnv::pause` on `gc`.
pub fn pause<T: Mark>(gc: &mut GcEnv<T>, b: bool)
    requires
        old(gc).wf(),
    ensures
        final(gc).wf(),
        final(gc)@.env.auto == !b,
        final(gc)@.env.roots == old(gc)@.env.roots,
        final(gc)@.auto_collected_from(old(gc)@.with_auto(!b)),
{
    gc.pause(b);
}

/// `GcEnv::add_root` on `gc`.
pub fn add_root<T: Mark>(gc: &mut GcEnv<T>, o: Gc)
    requires
        old(gc).wf(),
        old(gc)@.live(o),
    ensures
        final(gc).wf(),
        final(gc)@.env.roots.contains(o),
        old(gc)@.env.roots.contains(o) ==> final(gc)@ == old(gc)@,
        !old(gc)@.env.roots.contains(o) ==> {
            &&& final(gc)@.env.roots == old(gc)@.env.roots.push(o)
            &&& final(gc)@.env.colors == old(gc)@.env.colors.update(o@ as int, crate::model::GcColor::Grey)
            &&& final(gc)@.env.whites == old(gc)@.env.moved_spec(o, crate::model::GcColor::Grey).whites
            &&& final(gc)@.env.greys == old(gc)@.env.moved_spec(o, crate::model::GcColor::Grey).greys
            &&& final(gc)@.env.blacks == old(gc)@.env.moved_spec(o, crate::model::GcColor::Grey).blacks
            &&& final(gc)@.heap == old(gc)@.heap
            &&& final(gc)@.env.white_is_black == old(gc)@.env.white_is_black
            &&& final(gc)@.env.auto == old(gc)@.env.auto
        },
{
    gc.add_root(o);
}

/// `GcEnv::rm_root` on `gc`.
pub fn rm_root<T: Mark>(gc: &mut GcEnv<T>, o: Gc)
    requires
        old(gc).wf(),
    ensures
        final(gc).wf(),
        !final(gc)@.env.roots.contains(o),
        !old(gc)@.env.roots.contains(o) ==> final(gc)@ == old(gc)@,
        old(gc)@.env.roots.contains(o) ==> exists|k: int|
            0 <= k < old(gc)@.env.roots.len() && old(gc)@.env.roots[k] == o
                && #[trigger] old(gc)@.env.roots.remove(k) == final(gc)@.env.roots,
        final(gc)@.env.colors == old(gc)@.env.colors,
        final(gc)@.env.whites == old(gc)@.env.whites,
        final(gc)@.env.greys == old(gc)@.env.greys,
        final(gc)@.env.blacks == old(gc)@.env.blacks,
        final(gc)@.env.white_is_black == old(gc)@.env.white_is_black,
        final(gc)@.env.auto == old(gc)@.env.auto,
        final(gc)@.heap == old(gc)@.heap,
{
    gc.rm_root(o);
}

/// `GcEnv::finalize` on `gc`.
pub fn finalize<T: Mark>(gc: &mut GcEnv<T>)
    requires
        old(gc).wf(),
    ensures
        final(gc).wf(),
        forall|g: Gc| !(#[trigger] final(gc)@.live(g)),
        forall|i: int| 0 <= i < final(gc)@.heap.len() ==> #[trigger] final(gc)@.heap[i] is None,
        final(gc)@.heap.len() == old(gc)@.heap.len(),
        final(gc)@.env.roots.len() == 0,
        final(gc)@.env.whites.len() == 0,
        final(gc)@.env.greys.len() == 0,
        final(gc)@.env.blacks.len() == 0,
        final(gc)@.env.white_is_black == !old(gc)@.env.white_is_black,
        final(gc)@.env.auto == old(gc)@.env.auto,
{
    gc.finalize();
}

} // verus!
