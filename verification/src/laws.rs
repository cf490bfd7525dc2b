//! Properties of the collector that span its operations.
use vstd::prelude::*;

use crate::collector::Mark;
use crate::model::{
    lemma_colored_wf, lemma_gc_view_injective, lemma_marked_steps_add,
    lemma_marked_steps_explained, lemma_marked_steps_facts, lemma_tracks_empty, lemma_unbound_wf,
    refers_to, Gc, GcColor, GcView, InGcView, MAX_WHITES,
};

verus! {

/// A sweep never releases a root, and leaves every root grey.
pub proof fn law_roots_survive_sweep<T: Mark>(old: GcView<T>, new: GcView<T>)
    requires
        old.wf(),
        new.swept_from(old),
    ensures
        forall|g: Gc| #[trigger]
            old.env.roots.contains(g) ==> new.live(g) && new.env.is_grey(g),
{
    assert forall|g: Gc| #[trigger] old.env.roots.contains(g) implies new.live(g)
        && new.env.is_grey(g) by {
        assert(old.live(g) && !old.env.is_white(g));
    }
}

/// What is written in place of the value of an object is what a read of
/// that object gives back; the values of other objects stay as they were.
pub proof fn law_read_after_write<T: Mark>(old: GcView<T>, new: GcView<T>, g: Gc, value: T)
    requires
        old.wf(),
        old.live(g),
        new.env == old.env,
        new.heap == old.heap.update(g@ as int, Some(value)),
    ensures
        new.wf(),
        new.live(g),
        new.content(g) == value,
        forall|h: Gc| #[trigger] new.live(h) && h != g ==> new.content(h) == old.content(h),
{
    assert forall|h: Gc| #[trigger] new.live(h) && h != g implies new.content(h) == old.content(h) by {
        crate::model::lemma_gc_view_injective(h, g);
    }
    assert forall|i: int| 0 <= i < new.heap.len() implies (#[trigger] new.heap[i] is Some
        <==> new.env.colors[i] != GcColor::Unbound) by {
        assert(old.heap[i] is Some <==> old.env.colors[i] != GcColor::Unbound);
    }
}

/// Marking neither releases nor creates objects, keeps every value, and
/// never makes an object white.
pub proof fn law_mark_keeps_objects<T: Mark>(old: GcView<T>, new: GcView<T>, steps: usize)
    requires
        new.marked_from(old, steps),
    ensures
        new.heap == old.heap,
        forall|g: Gc| #[trigger] new.live(g) <==> old.live(g),
        forall|g: Gc| #[trigger] new.env.is_white(g) ==> old.env.is_white(g),
{
    assert forall|g: Gc| #[trigger] new.live(g) <==> old.live(g) by {
        if g@ < old.env.colors.len() {
            let i = g@ as int;
            assert(new.env.colors[i] == old.env.colors[i] || new.env.colors[i] != GcColor::Unbound);
        }
    }
    assert forall|g: Gc| #[trigger] new.env.is_white(g) implies old.env.is_white(g) by {
        if g@ < old.env.colors.len() {
            let i = g@ as int;
            assert(new.env.colors[i] == old.env.colors[i] || new.env.colors[i] == GcColor::Grey || new.env.colors[i] == old.env.black_color());
        }
    }
}

/// Marking with at least as many steps as there are live objects that are
/// not black leaves no grey object: the marking phase is complete.
pub proof fn law_enough_steps_finish_marking<T: Mark>(old: GcView<T>, new: GcView<T>, steps: usize)
    requires
        old.wf(),
        old.marking_sound(),
        new.marked_from(old, steps),
        steps >= old.env.pending(),
    ensures
        new.env.greys.len() == 0,
        new == old.fully_marked(),
{
    lemma_marked_steps_facts(old, old.env.pending());
    lemma_marked_steps_add(old, old.env.pending(), (steps - old.env.pending()) as nat);
    assert(old.env.pending() + (steps - old.env.pending()) as nat == steps as nat);

}

/// When nothing is grey, a marking followed by a sweep releases every object
/// that was white, and only those.
pub proof fn law_unmarked_whites_released<T: Mark>(
    s0: GcView<T>,
    s1: GcView<T>,
    s2: GcView<T>,
    steps: usize,
)
    requires
        s0.wf(),
        s0.env.greys.len() == 0,
        s1.marked_from(s0, steps),
        s2.swept_from(s1),
    ensures
        forall|g: Gc| #[trigger] s2.live(g) <==> (s0.live(g) && !s0.env.is_white(g)),
{
    assert(s1 == s0);
}

/// The collection that an automatic collector runs never releases a live
/// object that is grey or black (roots included), and keeps the roots.
pub proof fn law_auto_collection_keeps_non_whites<T: Mark>(old: GcView<T>, new: GcView<T>)
    requires
        old.wf(),
        new.wf(),
        new.auto_collected_from(old),
    ensures
        new.env.roots == old.env.roots,
        forall|g: Gc| old.live(g) && !old.env.is_white(g) ==> #[trigger] new.live(g),
        forall|g: Gc| #[trigger] new.live(g) ==> old.live(g) && new.content(g) == old.content(g),
{
    if old.wants_collection() {
        let mid = choose|mid: GcView<T>|
            #![trigger mid.marked_from(old, crate::model::MAX_WHITES)]
            mid.marked_from(old, crate::model::MAX_WHITES) && if mid.wants_collection() {
                new.swept_from(mid)
            } else {
                new == mid
            };
        law_mark_keeps_objects(old, mid, crate::model::MAX_WHITES);
        assert forall|g: Gc| old.live(g) && !old.env.is_white(g) implies #[trigger] new.live(g) by {
            assert(mid.live(g));
            assert(!mid.env.is_white(g));
        }
        assert forall|g: Gc| #[trigger] new.live(g) implies old.live(g) && new.content(g)
            == old.content(g) by {
            if mid.wants_collection() {
                assert(mid.live(g));
                assert(new.env.colors[g@ as int] != GcColor::Unbound);
                assert(new.heap[g@ as int] == mid.heap[g@ as int]);
            }
        }
    }
}

/// A sweep keeps exactly the roots and the objects that are live and not
/// white once marking has run to completion: every object reached, through
/// the values' `marked`, from a grey object survives, and every object it
/// does not reach is released if it was white.
pub proof fn law_sweep_keeps_what_marking_reaches<T: Mark>(old: GcView<T>, new: GcView<T>)
    requires
        new.swept_from(old),
    ensures
        forall|g: Gc| #[trigger]
            new.live(g) <==> (old.env.roots.contains(g) || (old.fully_marked().live(g)
                && !old.fully_marked().env.is_white(g))),
{
    assert forall|g: Gc| #[trigger] new.live(g) <==> (old.env.roots.contains(g) || (
    old.fully_marked().live(g) && !old.fully_marked().env.is_white(g))) by {
        assert(new.env.color(g) == if old.env.roots.contains(g) {
            GcColor::Grey
        } else if old.fully_marked().env.is_white(g) {
            GcColor::Unbound
        } else {
            old.fully_marked().env.color(g)
        });
    }
}

/// Marking an object grey twice leaves what marking it once leaves.
pub proof fn law_grey_twice_is_once(v: InGcView, g: Gc)
    ensures
        v.greyed_spec(g).greyed_spec(g) == v.greyed_spec(g),
{
    if v.is_white(g) {
        let w = v.greyed_spec(g);
        assert(g@ < v.colors.len());
        assert(w.colors[g@ as int] == GcColor::Grey);
        assert(!w.is_white(g));
    }
}

/// Taking a live object off its list and putting it back with the same tag
/// leaves every list holding the same objects (the object may move to the
/// end of its list) and every tag as it was.
pub proof fn law_remove_then_add_keeps_lists(v: InGcView, g: Gc)
    requires
        v.wf(),
        v.live(g),
    ensures
        v.unbound_spec(g).colored_spec(g, v.color(g)).wf(),
        v.unbound_spec(g).colored_spec(g, v.color(g)).colors == v.colors,
        forall|x: Gc| #[trigger]
            v.unbound_spec(g).colored_spec(g, v.color(g)).whites.contains(x)
                <==> v.whites.contains(x),
        forall|x: Gc| #[trigger]
            v.unbound_spec(g).colored_spec(g, v.color(g)).greys.contains(x)
                <==> v.greys.contains(x),
        forall|x: Gc| #[trigger]
            v.unbound_spec(g).colored_spec(g, v.color(g)).blacks.contains(x)
                <==> v.blacks.contains(x),
{
    let u = v.unbound_spec(g);
    lemma_unbound_wf(v, g);
    assert(u.color(g) == GcColor::Unbound);
    lemma_colored_wf(u, g, v.color(g));
    let w = u.colored_spec(g, v.color(g));
    assert(w.colors =~= v.colors);
}

/// Swapping the white and black lists twice restores the bookkeeping.
pub proof fn law_swap_twice_restores(v: InGcView)
    ensures
        v.swapped_spec().swapped_spec() == v,
{
    assert(v.swapped_spec().swapped_spec() =~= v);
}

/// Marking to completion a collector whose values mark soundly, and in
/// which no black object refers to a white one, leaves nothing grey, keeps
/// that invariant, releases nothing and whitens nothing. Hence every live
/// object that a live non-white object refers to is non-white.
pub proof fn law_marking_closes_over_references<T: Mark>(v: GcView<T>)
    requires
        v.wf(),
        v.marking_sound(),
        v.no_black_to_white(),
    ensures
        v.fully_marked().env.greys.len() == 0,
        v.fully_marked().no_black_to_white(),
        v.fully_marked().heap == v.heap,
        forall|g: Gc| #[trigger] v.fully_marked().live(g) <==> v.live(g),
        forall|g: Gc| v.live(g) && !v.env.is_white(g) ==> !#[trigger] v.fully_marked().env.is_white(g),
        forall|x: Gc, y: Gc|
            #![trigger v.fully_marked().env.is_white(x), refers_to(v.fully_marked().content(x), y)]
            v.fully_marked().live(x) && !v.fully_marked().env.is_white(x) && v.fully_marked().live(y)
                && refers_to(v.fully_marked().content(x), y) ==> !v.fully_marked().env.is_white(y),
{
    let f = v.fully_marked();
    lemma_marked_steps_facts(v, v.env.pending());
    assert forall|g: Gc| #[trigger] f.live(g) <==> v.live(g) by {
        if g@ < v.env.colors.len() {
            let i = g@ as int;
            assert(f.env.colors[i] == v.env.colors[i] || f.env.colors[i] != GcColor::Unbound);
        }
    }
    assert forall|g: Gc| v.live(g) && !v.env.is_white(g) implies !#[trigger] f.env.is_white(g) by {
        let i = g@ as int;
        assert(f.env.colors[i] == v.env.colors[i] || f.env.colors[i] == GcColor::Grey
            || f.env.colors[i] == v.env.black_color());
    }
    assert forall|x: Gc, y: Gc|
        #![trigger f.env.is_white(x), refers_to(f.content(x), y)]
        f.live(x) && !f.env.is_white(x) && f.live(y) && refers_to(f.content(x), y) implies !f.env.is_white(y) by {
        lemma_tracks_empty(f.env.greys, f.env.colors, GcColor::Grey, x);
        assert(f.env.is_black(x));
    }
}

/// The three-colour invariant holds after every sweep: nothing is black.
pub proof fn law_sweep_establishes_invariant<T: Mark>(old: GcView<T>, new: GcView<T>)
    requires
        new.swept_from(old),
    ensures
        new.no_black_to_white(),
        forall|g: Gc| !(#[trigger] new.env.is_black(g)),
{
    assert forall|g: Gc| !(#[trigger] new.env.is_black(g)) by {
        if new.live(g) {
            assert(new.env.is_grey(g) || new.env.is_white(g));
        }
    }
}

/// Bounded marking keeps the three-colour invariant of a collector whose
/// values mark soundly.
pub proof fn law_mark_keeps_invariant<T: Mark>(old: GcView<T>, new: GcView<T>, steps: usize)
    requires
        old.wf(),
        old.marking_sound(),
        old.no_black_to_white(),
        new.marked_from(old, steps),
    ensures
        new.no_black_to_white(),
{
    lemma_marked_steps_facts(old, steps as nat);
}

/// The write barrier keeps the three-colour invariant: a value of `o` is
/// replaced by one that refers to nothing new but `r`, then `new_ref(o, r)`
/// runs (its effect is what `new_ref` ensures).
pub proof fn law_write_barrier_keeps_invariant<T: Mark>(
    s0: GcView<T>,
    s1: GcView<T>,
    s2: GcView<T>,
    o: Gc,
    r: Gc,
    value: T,
)
    requires
        s0.wf(),
        s0.no_black_to_white(),
        s0.live(o),
        s0.live(r),
        s1.env == s0.env,
        s1.heap == s0.heap.update(o@ as int, Some(value)),
        forall|y: Gc| #[trigger] refers_to(value, y) ==> refers_to(s0.content(o), y) || y == r,
        if s1.env.is_black(o) && s1.env.is_white(r) {
            &&& s2.env.colors == s1.env.colors.update(o@ as int, GcColor::Grey)
            &&& s2.env.white_is_black == s1.env.white_is_black
            &&& s2.heap == s1.heap
        } else {
            s2 == s1
        },
    ensures
        s2.no_black_to_white(),
{
    assert forall|x: Gc, y: Gc|
        #![trigger s2.env.is_black(x), refers_to(s2.content(x), y)]
        s2.env.is_black(x) && s2.live(y) && refers_to(s2.content(x), y) implies !s2.env.is_white(y) by {
        lemma_gc_view_injective(x, o);
        lemma_gc_view_injective(y, o);
        let xi = x@ as int;
        let yi = y@ as int;
        assert(s2.env.colors[xi] == s0.env.colors[xi] || x == o);
        assert(s2.env.colors[yi] == s0.env.colors[yi] || y == o);
        if x == o {
            assert(s2 == s1);
            assert(s2.content(x) == value);
            if y != r {
                assert(refers_to(s0.content(o), y));
                assert(s0.env.is_black(o) && s0.live(y));
                assert(!s0.env.is_white(y));
            }
        } else {
            assert(s2.content(x) == s0.content(x));
            assert(s2.env.black_color() == s0.env.black_color());
            assert(s0.env.is_black(x));
            assert(s0.live(y));
            assert(refers_to(s0.content(x), y));
            assert(!s0.env.is_white(y));
        }
    }
}

/// No object that a root reaches is released by a sweep of a collector
/// whose values mark soundly and in which no black object refers to a white
/// one (which every sweep establishes, and marking and the write barrier
/// keep).
pub proof fn law_sweep_keeps_reachable<T: Mark>(old: GcView<T>, new: GcView<T>, path: Seq<Gc>)
    requires
        old.wf(),
        old.marking_sound(),
        old.no_black_to_white(),
        new.swept_from(old),
        old.reaches(path),
    ensures
        forall|i: int| 0 <= i < path.len() ==> #[trigger] new.live(path[i]),
{
    law_marking_closes_over_references(old);
    law_sweep_keeps_what_marking_reaches(old, new);
    let f = old.fully_marked();
    assert forall|i: int| 0 <= i < path.len() implies #[trigger] new.live(path[i]) by {
        lemma_path_stays_non_white(old, path, i);
    }
}

/// Each object on a path from a root is live and not white once marking
/// has run to completion.
proof fn lemma_path_stays_non_white<T: Mark>(old: GcView<T>, path: Seq<Gc>, i: int)
    requires
        old.wf(),
        old.marking_sound(),
        old.no_black_to_white(),
        old.reaches(path),
        0 <= i < path.len(),
    ensures
        old.fully_marked().live(path[i]),
        !old.fully_marked().env.is_white(path[i]),
    decreases i,
{
    law_marking_closes_over_references(old);
    let f = old.fully_marked();
    if i == 0 {
        assert(old.env.roots.contains(path[0]));
        assert(old.live(path[0]) && !old.env.is_white(path[0]));
    } else {
        lemma_path_stays_non_white(old, path, i - 1);
        let x = path[i - 1];
        let y = path[i];
        assert(old.live(path[(i - 1) + 1]) && refers_to(old.content(path[i - 1]), path[(i - 1) + 1]));
        assert(f.content(x) == old.content(x));
        assert(f.live(y));
        assert(!f.env.is_white(x));
        assert(refers_to(f.content(x), y));
    }
}

/// A sweep releases no live object that a survivor refers to, in a
/// collector whose values mark soundly and in which no black object refers
/// to a white one. After a write of `o` followed by `new_ref(o, r)` this is
/// what keeps `r` alive as long as `o` is.
pub proof fn law_referents_of_survivors_survive<T: Mark>(
    old: GcView<T>,
    new: GcView<T>,
    x: Gc,
    y: Gc,
)
    requires
        old.wf(),
        old.marking_sound(),
        old.no_black_to_white(),
        new.swept_from(old),
        new.live(x),
        old.live(y),
        refers_to(old.content(x), y),
    ensures
        new.live(y),
{
    law_marking_closes_over_references(old);
    law_sweep_keeps_what_marking_reaches(old, new);
    let f = old.fully_marked();
    assert(old.live(x));
    if old.env.roots.contains(x) {
        assert(old.live(x) && !old.env.is_white(x));
    }
    assert(f.live(x) && !f.env.is_white(x));
    assert(f.content(x) == old.content(x));
    assert(f.live(y));
    assert(refers_to(f.content(x), y));
}

/// Marking to completion, in a collector whose values mark soundly and turn
/// grey only what they refer to, and in which no black object refers to a
/// white one, blackens every object that a grey object reaches and leaves
/// white every white object that no grey object reaches.
pub proof fn law_full_marking_reaches_exactly<T: Mark>(v: GcView<T>)
    requires
        v.wf(),
        v.marking_sound(),
        v.marking_exact(),
        v.no_black_to_white(),
    ensures
        v.fully_marked().env.greys.len() == 0,
        forall|path: Seq<Gc>, i: int|
            v.reaches_from_greys(path) && 0 <= i < path.len() ==> #[trigger] v.fully_marked().env.is_black(
                path[i],
            ),
        forall|y: Gc|
            v.env.is_white(y) && !v.reached_from_greys(y) ==> #[trigger] v.fully_marked().env.is_white(y),
{
    law_marking_closes_over_references(v);
    let f = v.fully_marked();
    lemma_marked_steps_facts(v, v.env.pending());
    assert(v.env.darkened_from(v.env));
    assert(v.non_whites_explained_by(v));
    lemma_marked_steps_explained(v, v, v.env.pending());
    assert forall|path: Seq<Gc>, i: int|
        v.reaches_from_greys(path) && 0 <= i < path.len() implies #[trigger] f.env.is_black(path[i]) by {
        lemma_grey_path_black(v, path, i);
    }
    assert forall|y: Gc| v.env.is_white(y) && !v.reached_from_greys(y) implies #[trigger] f.env.is_white(
        y,
    ) by {
        assert(f.live(y));
    }
}

/// Each object on a path from a grey object is black once marking has run
/// to completion.
proof fn lemma_grey_path_black<T: Mark>(v: GcView<T>, path: Seq<Gc>, i: int)
    requires
        v.wf(),
        v.marking_sound(),
        v.no_black_to_white(),
        v.reaches_from_greys(path),
        0 <= i < path.len(),
    ensures
        v.fully_marked().env.is_black(path[i]),
    decreases i,
{
    law_marking_closes_over_references(v);
    lemma_marked_steps_facts(v, v.env.pending());
    let f = v.fully_marked();
    let x = path[i];
    if i == 0 {
        assert(v.live(x) && !v.env.is_white(x));
    } else {
        lemma_grey_path_black(v, path, i - 1);
        let w = path[i - 1];
        assert(v.live(path[(i - 1) + 1]) && refers_to(v.content(path[i - 1]), path[(i - 1) + 1]));
        assert(f.content(w) == v.content(w));
        assert(f.live(x));
        assert(f.live(w) && !f.env.is_white(w));
        assert(refers_to(f.content(w), x));
    }
    assert(f.live(x) && !f.env.is_white(x));
    lemma_tracks_empty(f.env.greys, f.env.colors, GcColor::Grey, x);
}

/// The automatic collection decides by the `auto` flag and the number of
/// white objects alone, whatever is grey or black: with `auto` and at least
/// `MAX_WHITES` whites it marks `MAX_WHITES` steps, and then sweeps exactly
/// when `auto` holds and at least `MAX_WHITES` whites are left; otherwise it
/// changes nothing.
pub proof fn law_auto_collection_decision<T: Mark>(old: GcView<T>, new: GcView<T>)
    requires
        new.auto_collected_from(old),
    ensures
        !(old.env.auto && old.env.whites.len() >= MAX_WHITES) ==> new == old,
        old.env.auto && old.env.whites.len() >= MAX_WHITES ==> {
            let mid = old.marked_steps(MAX_WHITES as nat);
            &&& mid.marked_from(old, MAX_WHITES)
            &&& if mid.env.auto && mid.env.whites.len() >= MAX_WHITES {
                new.swept_from(mid)
            } else {
                new == mid
            }
        },
{
    if old.env.auto && old.env.whites.len() >= MAX_WHITES {
        let mid = choose|mid: GcView<T>|
            #![trigger mid.marked_from(old, MAX_WHITES)]
            mid.marked_from(old, MAX_WHITES) && if mid.wants_collection() {
                new.swept_from(mid)
            } else {
                new == mid
            };
        assert(mid == old.marked_steps(MAX_WHITES as nat));
    }
}

/// Allocation changes no existing object: after `new_gc(obj)` returned `g`,
/// every earlier slot holds the colour and value it has after the automatic
/// collection, the grey and black lists are those of that collection, the
/// roots are unchanged, and `g` is a new white slot holding `obj` at the
/// end of the table.
pub proof fn law_new_gc_changes_no_existing_object<T: Mark>(
    old: GcView<T>,
    new: GcView<T>,
    g: Gc,
    obj: T,
)
    requires
        exists|mid: GcView<T>| #[trigger]
            mid.auto_collected_from(old) && new.allocated_from(mid, g, obj),
    ensures
        exists|c: GcView<T>|
            #![trigger c.auto_collected_from(old)]
            c.auto_collected_from(old) && {
                &&& g@ == c.env.colors.len()
                &&& new.env.colors.len() == c.env.colors.len() + 1
                &&& new.heap.len() == c.heap.len() + 1
                &&& forall|i: int|
                    #![trigger new.env.colors[i]]
                    0 <= i < c.env.colors.len() ==> new.env.colors[i] == c.env.colors[i]
                &&& forall|i: int|
                    #![trigger new.heap[i]]
                    0 <= i < c.heap.len() ==> new.heap[i] == c.heap[i]
                &&& new.env.colors[g@ as int] == c.env.white_color()
                &&& new.heap.last() == Some(obj)
                &&& new.env.greys == c.env.greys
                &&& new.env.blacks == c.env.blacks
                &&& new.env.roots == c.env.roots
                &&& new.env.white_is_black == c.env.white_is_black
                &&& new.env.auto == c.env.auto
            },
        new.env.roots == old.env.roots,
{
    let mid = choose|mid: GcView<T>| #[trigger]
        mid.auto_collected_from(old) && new.allocated_from(mid, g, obj);
    lemma_auto_collection_keeps_roots(old, mid);
    assert(mid.auto_collected_from(old));
}

/// The automatic collection keeps the roots and the flags' `auto`.
proof fn lemma_auto_collection_keeps_roots<T: Mark>(old: GcView<T>, new: GcView<T>)
    requires
        new.auto_collected_from(old),
    ensures
        new.env.roots == old.env.roots,
        new.env.auto == old.env.auto,
        new.env.colors.len() == old.env.colors.len(),
{
    law_auto_collection_decision(old, new);
}

/// `pause(b)` sets `auto` to `!b` and keeps the roots. When no collection
/// runs (`b`, or fewer than `MAX_WHITES` whites) it changes nothing else;
/// when one runs, it is the collection of the state with `auto` switched on.
pub proof fn law_pause_keeps_roots<T: Mark>(old: GcView<T>, new: GcView<T>, b: bool)
    requires
        new.env.auto == !b,
        new.auto_collected_from(old.with_auto(!b)),
    ensures
        new.env.roots == old.env.roots,
        new.env.auto == !b,
        (b || old.env.whites.len() < MAX_WHITES) ==> {
            &&& new.env.colors == old.env.colors
            &&& new.env.whites == old.env.whites
            &&& new.env.greys == old.env.greys
            &&& new.env.blacks == old.env.blacks
            &&& new.env.white_is_black == old.env.white_is_black
            &&& new.heap == old.heap
        },
        !b && old.env.whites.len() >= MAX_WHITES ==> {
            let mid = old.with_auto(true).marked_steps(MAX_WHITES as nat);
            if mid.env.auto && mid.env.whites.len() >= MAX_WHITES {
                new.swept_from(mid)
            } else {
                new == mid
            }
        },
{
    let a = old.with_auto(!b);
    law_auto_collection_decision(a, new);
    lemma_auto_collection_keeps_roots(a, new);
}

/// A live object after the automatic collection was live before it and
/// holds the same value.
proof fn lemma_auto_collection_keeps_heap_of_live<T: Mark>(old: GcView<T>, new: GcView<T>, x: Gc)
    requires
        old.wf(),
        new.auto_collected_from(old),
        new.heap.len() == new.env.colors.len(),
        new.live(x),
    ensures
        old.live(x),
        new.heap[x@ as int] == old.heap[x@ as int],
{
    law_auto_collection_decision(old, new);
    if old.env.auto && old.env.whites.len() >= MAX_WHITES {
        let m = old.marked_steps(MAX_WHITES as nat);
        law_mark_keeps_objects(old, m, MAX_WHITES);
        if m.env.auto && m.env.whites.len() >= MAX_WHITES {
            assert(m.live(x));
            assert(new.env.colors[x@ as int] != GcColor::Unbound);
        }
    }
}

/// Allocation keeps the three-colour invariant, provided no value of the
/// collector refers to the new slot: the new object is white, and the
/// automatic collection before it keeps (marking) or establishes (sweeping)
/// the invariant.
pub proof fn law_new_gc_keeps_invariant<T: Mark>(
    old: GcView<T>,
    new: GcView<T>,
    g: Gc,
    obj: T,
)
    requires
        old.wf(),
        old.marking_sound(),
        old.no_black_to_white(),
        new.wf(),
        exists|mid: GcView<T>| #[trigger]
            mid.auto_collected_from(old) && new.allocated_from(mid, g, obj),
        g@ == old.env.colors.len(),
        forall|x: Gc| #[trigger] refers_to(old.content(x), g) ==> !old.live(x),
    ensures
        new.no_black_to_white(),
{
    let c = choose|mid: GcView<T>| #[trigger]
        mid.auto_collected_from(old) && new.allocated_from(mid, g, obj);
    law_auto_collection_decision(old, c);
    assert(c.heap.len() == c.env.colors.len());
    // `c` satisfies the invariant and holds the old values
    if old.env.auto && old.env.whites.len() >= MAX_WHITES {
        let m = old.marked_steps(MAX_WHITES as nat);
        lemma_marked_steps_facts(old, MAX_WHITES as nat);
        if m.env.auto && m.env.whites.len() >= MAX_WHITES {
            law_sweep_establishes_invariant(m, c);
        }
    }
    assert(c.no_black_to_white());
    assert forall|x: Gc, y: Gc|
        #![trigger new.env.is_black(x), refers_to(new.content(x), y)]
        new.env.is_black(x) && new.live(y) && refers_to(new.content(x), y) implies !new.env.is_white(y) by {
        let xi = x@ as int;
        let yi = y@ as int;
        lemma_gc_view_injective(x, g);
        lemma_gc_view_injective(y, g);
        assert(x != g);
        assert(xi < c.env.colors.len());
        assert(new.env.colors[xi] == c.env.colors[xi] && new.heap[xi] == c.heap[xi]);
        assert(c.env.is_black(x));
        assert(new.content(x) == c.content(x));
        if y == g {
            assert(c.heap[xi] == old.heap[xi]) by {
                lemma_auto_collection_keeps_heap_of_live(old, c, x);
            }
            assert(old.content(x) == c.content(x));
            assert(old.live(x)) by {
                lemma_auto_collection_keeps_heap_of_live(old, c, x);
            }
        } else {
            assert(yi < c.env.colors.len());
            assert(new.env.colors[yi] == c.env.colors[yi]);
            assert(c.live(y));
        }
    }
}

} // verus!
