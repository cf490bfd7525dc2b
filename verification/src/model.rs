//! The mathematical model of the collector: colours, object handles, the
//! abstract state of the colour bookkeeping and of the object heap, and the
//! relations between states that the collector's operations establish.
use vstd::prelude::*;

use crate::collector::Mark;
use crate::seq_lemmas::{lemma_push_contains, lemma_push_no_duplicates, lemma_remove_contains};

verus! {

/// Number of white objects at which an automatic collector runs a mark and
/// sweep cycle before it allocates.
pub const MAX_WHITES: usize = 100;

/// The colour stored with each object.
///
/// `White` and `Black` are physical tags: which of them means "white"
/// (not yet reached) flips at every sweep, see `InGcView::white_color`.
/// `Unbound` marks a slot whose object was released, or an object that is
/// momentarily in no colour list while the collector moves it.
#[derive(PartialEq, Eq, Structural, Clone, Copy, Debug)]
pub enum GcColor {
    Unbound,
    Grey,
    White,
    Black,
}

/// A handle on an object of a collector: the index of its slot.
/// Slots are never reused, so a handle names one object for good.
#[derive(PartialEq, Eq, Structural, Clone, Copy, Debug)]
pub struct Gc {
    index: usize,
}

impl View for Gc {
    type V = nat;

    closed spec fn view(&self) -> nat {
        self.index as nat
    }
}

impl Gc {
    pub(crate) fn from_index(index: usize) -> (g: Gc)
        ensures
            g@ == index,
    {
        Gc { index }
    }

    /// The handle of slot `i`.
    pub(crate) closed spec fn from_index_spec(i: int) -> Gc {
        Gc { index: i as usize }
    }

    pub(crate) fn index(&self) -> (i: usize)
        ensures
            i == self@,
    {
        self.index
    }
}

/// The handle of a slot names that slot.
pub(crate) proof fn lemma_from_index_spec(i: int)
    requires
        0 <= i <= usize::MAX,
    ensures
        Gc::from_index_spec(i)@ == i,
{
}

/// Two handles are equal exactly when they name the same slot.
pub proof fn lemma_gc_view_injective(a: Gc, b: Gc)
    ensures
        (a@ == b@) <==> (a == b),
{
}

/// The colour of `g` in a colour table; slots outside the table are unbound.
pub open spec fn color_at(colors: Seq<GcColor>, g: Gc) -> GcColor {
    if g@ < colors.len() {
        colors[g@ as int]
    } else {
        GcColor::Unbound
    }
}

/// The position of `g` in `s`, which holds it.
pub open spec fn index_in(s: Seq<Gc>, g: Gc) -> int {
    choose|k: int| 0 <= k < s.len() && s[k] == g
}

/// `s` with the entry `g` taken out in place.
pub open spec fn without(s: Seq<Gc>, g: Gc) -> Seq<Gc> {
    s.remove(index_in(s, g))
}

/// `s` with the entries of `r` taken out in place, one after the other.
pub open spec fn without_all(s: Seq<Gc>, r: Seq<Gc>) -> Seq<Gc>
    decreases r.len(),
{
    if r.len() == 0 {
        s
    } else {
        without(without_all(s, r.drop_last()), r.last())
    }
}

/// In a sequence that holds `g` once, at `k`, taking `g` out is removing
/// the entry at `k`.
pub proof fn lemma_without(s: Seq<Gc>, g: Gc, k: int)
    requires
        s.no_duplicates(),
        0 <= k < s.len(),
        s[k] == g,
    ensures
        index_in(s, g) == k,
        without(s, g) == s.remove(k),
{
    let j = index_in(s, g);
    assert(0 <= j < s.len() && s[j] == g);
}

/// `list` holds, once each, exactly the objects whose colour is `c`.
pub open spec fn list_tracks(list: Seq<Gc>, colors: Seq<GcColor>, c: GcColor) -> bool {
    &&& list.no_duplicates()
    &&& forall|g: Gc| #[trigger] list.contains(g) <==> color_at(colors, g) == c
}

/// Whether an object of colour `c` still has marking work ahead of it:
/// it is live and not black.
pub open spec fn unfinished(c: GcColor, black: GcColor) -> nat {
    if c == GcColor::Unbound || c == black {
        0
    } else {
        1
    }
}

/// The number of live objects that are not black.
pub open spec fn count_unfinished(colors: Seq<GcColor>, black: GcColor) -> nat
    decreases colors.len(),
{
    if colors.len() == 0 {
        0
    } else {
        count_unfinished(colors.drop_last(), black) + unfinished(colors.last(), black)
    }
}

/// The abstract state of the colour bookkeeping (`InGcEnv`).
#[verifier::ext_equal]
pub struct InGcView {
    /// The colour of each slot, indexed by handle.
    pub colors: Seq<GcColor>,
    /// The objects that are white (not yet reached in this cycle).
    pub whites: Seq<Gc>,
    /// The objects that are reached but whose references are not yet marked.
    pub greys: Seq<Gc>,
    /// The objects that are reached and whose references are marked.
    pub blacks: Seq<Gc>,
    /// The roots, kept alive by every sweep.
    pub roots: Seq<Gc>,
    /// Whether the physical tag `Black` currently means white.
    pub white_is_black: bool,
    /// Whether allocation runs a collection once there are many whites.
    pub auto: bool,
}

impl InGcView {
    /// The physical tag that currently means white.
    pub open spec fn white_color(self) -> GcColor {
        if self.white_is_black {
            GcColor::Black
        } else {
            GcColor::White
        }
    }

    /// The physical tag that currently means black.
    pub open spec fn black_color(self) -> GcColor {
        if self.white_is_black {
            GcColor::White
        } else {
            GcColor::Black
        }
    }

    pub open spec fn color(self, g: Gc) -> GcColor {
        color_at(self.colors, g)
    }

    /// `g` names an object that has not been released.
    pub open spec fn live(self, g: Gc) -> bool {
        self.color(g) != GcColor::Unbound
    }

    pub open spec fn is_white(self, g: Gc) -> bool {
        self.color(g) == self.white_color()
    }

    pub open spec fn is_grey(self, g: Gc) -> bool {
        self.color(g) == GcColor::Grey
    }

    pub open spec fn is_black(self, g: Gc) -> bool {
        self.color(g) == self.black_color()
    }

    /// The number of live objects that are not black yet.
    pub open spec fn pending(self) -> nat {
        count_unfinished(self.colors, self.black_color())
    }

    /// Each colour list holds exactly the objects of its colour, and no
    /// object is a root twice.
    pub open spec fn wf(self) -> bool {
        &&& list_tracks(self.whites, self.colors, self.white_color())
        &&& list_tracks(self.greys, self.colors, GcColor::Grey)
        &&& list_tracks(self.blacks, self.colors, self.black_color())
        &&& self.roots.no_duplicates()
    }

    /// `g` taken off the list of its colour, in place, and left unbound.
    pub open spec fn unbound_spec(self, g: Gc) -> InGcView {
        let c = self.color(g);
        InGcView {
            colors: self.colors.update(g@ as int, GcColor::Unbound),
            whites: if c == self.white_color() {
                without(self.whites, g)
            } else {
                self.whites
            },
            greys: if c == GcColor::Grey {
                without(self.greys, g)
            } else {
                self.greys
            },
            blacks: if c == self.black_color() {
                without(self.blacks, g)
            } else {
                self.blacks
            },
            roots: self.roots,
            white_is_black: self.white_is_black,
            auto: self.auto,
        }
    }

    /// The unbound `g` given tag `c` and pushed at the end of the list of
    /// that colour.
    pub open spec fn colored_spec(self, g: Gc, c: GcColor) -> InGcView {
        InGcView {
            colors: self.colors.update(g@ as int, c),
            whites: if c == self.white_color() {
                self.whites.push(g)
            } else {
                self.whites
            },
            greys: if c == GcColor::Grey {
                self.greys.push(g)
            } else {
                self.greys
            },
            blacks: if c == self.black_color() {
                self.blacks.push(g)
            } else {
                self.blacks
            },
            roots: self.roots,
            white_is_black: self.white_is_black,
            auto: self.auto,
        }
    }

    /// `g` moved to tag `c`: nothing if it has that tag already, else taken
    /// off its list (if any) and pushed on the list of `c`.
    pub open spec fn moved_spec(self, g: Gc, c: GcColor) -> InGcView {
        if self.color(g) == c {
            self
        } else if self.color(g) == GcColor::Unbound {
            self.colored_spec(g, c)
        } else {
            self.unbound_spec(g).colored_spec(g, c)
        }
    }

    /// The lists of white and black objects swapped and the meaning of the
    /// tags flipped.
    pub open spec fn swapped_spec(self) -> InGcView {
        InGcView {
            colors: self.colors,
            whites: self.blacks,
            greys: self.greys,
            blacks: self.whites,
            roots: self.roots,
            white_is_black: !self.white_is_black,
            auto: self.auto,
        }
    }

    /// `g` turned grey if it is white; otherwise nothing changes.
    pub open spec fn greyed_spec(self, g: Gc) -> InGcView {
        if self.is_white(g) {
            self.moved_spec(g, GcColor::Grey)
        } else {
            self
        }
    }

    /// `self` follows from `old` by turning white objects grey, and by
    /// nothing else. This is all that marking the references of one object
    /// may do.
    pub open spec fn greyed_from(self, old: InGcView) -> bool {
        &&& self.white_is_black == old.white_is_black
        &&& self.auto == old.auto
        &&& self.roots == old.roots
        &&& self.colors.len() == old.colors.len()
        &&& forall|i: int|
            #![trigger self.colors[i]]
            0 <= i < self.colors.len() ==> self.colors[i] == old.colors[i] || (old.colors[i]
                == old.white_color() && self.colors[i] == GcColor::Grey)
    }

    /// `self` follows from `old` by moving objects forward in the order
    /// white, grey, black, and by nothing else. Marking does no more.
    pub open spec fn darkened_from(self, old: InGcView) -> bool {
        &&& self.white_is_black == old.white_is_black
        &&& self.auto == old.auto
        &&& self.roots == old.roots
        &&& self.colors.len() == old.colors.len()
        &&& forall|i: int|
            #![trigger self.colors[i]]
            0 <= i < self.colors.len() ==> {
                ||| self.colors[i] == old.colors[i]
                ||| old.colors[i] == old.white_color() && (self.colors[i] == GcColor::Grey
                    || self.colors[i] == old.black_color())
                ||| old.colors[i] == GcColor::Grey && self.colors[i] == old.black_color()
            }
    }
}

/// The abstract state of a collector (`GcEnv`): the colour bookkeeping and
/// the content of each slot.
#[verifier::ext_equal]
pub struct GcView<T> {
    pub env: InGcView,
    pub heap: Seq<Option<T>>,
}

impl<T> GcView<T> {
    pub open spec fn live(self, g: Gc) -> bool {
        self.env.live(g)
    }

    /// The value held by the live object `g`.
    pub open spec fn content(self, g: Gc) -> T {
        self.heap[g@ as int]->Some_0
    }

    /// The bookkeeping is consistent, a slot holds a value exactly when its
    /// object is live, and every root is live and not white.
    pub open spec fn wf(self) -> bool {
        &&& self.env.wf()
        &&& self.heap.len() == self.env.colors.len()
        &&& forall|i: int|
            #![trigger self.heap[i]]
            0 <= i < self.heap.len() ==> (self.heap[i] is Some <==> self.env.colors[i]
                != GcColor::Unbound)
        &&& forall|g: Gc| #[trigger]
            self.env.roots.contains(g) ==> self.env.live(g) && !self.env.is_white(g)
    }

    /// Whether an automatic collector runs a collection in state `self`.
    pub open spec fn wants_collection(self) -> bool {
        self.env.auto && self.env.whites.len() >= MAX_WHITES
    }

    /// `self` is `old` with `obj` added as a new white object `g` holding
    /// `value`, in the next free slot.
    pub open spec fn allocated_from(self, old: GcView<T>, g: Gc, value: T) -> bool {
        &&& g@ == old.env.colors.len()
        &&& self.env.colors == old.env.colors.push(old.env.white_color())
        &&& self.env.whites == old.env.whites.push(g)
        &&& self.env.greys == old.env.greys
        &&& self.env.blacks == old.env.blacks
        &&& self.env.roots == old.env.roots
        &&& self.env.white_is_black == old.env.white_is_black
        &&& self.env.auto == old.env.auto
        &&& self.heap == old.heap.push(Some(value))
    }

    /// `old` with the automatic collection switched on or off.
    pub open spec fn with_auto(self, auto: bool) -> GcView<T> {
        GcView {
            env: InGcView {
                colors: self.env.colors,
                whites: self.env.whites,
                greys: self.env.greys,
                blacks: self.env.blacks,
                roots: self.env.roots,
                white_is_black: self.env.white_is_black,
                auto,
            },
            heap: self.heap,
        }
    }
}

/// `value` refers to `g`: marking `value` turns `g` grey whenever `g` is
/// white.
pub open spec fn refers_to<T: Mark>(value: T, g: Gc) -> bool {
    forall|b: InGcView|
        #![trigger value.marked(b)]
        b.wf() && b.is_white(g) ==> value.marked(b).is_grey(g)
}

/// Marking `value` turns grey only white objects that `value` refers to.
pub open spec fn marks_only_referents<T: Mark>(value: T) -> bool {
    forall|b: InGcView, g: Gc|
        #![trigger value.marked(b).is_grey(g)]
        b.wf() && b.is_white(g) && value.marked(b).is_grey(g) ==> refers_to(value, g)
}

/// Marking `value` from any consistent bookkeeping keeps it consistent and
/// only turns white objects grey, as `Mark::mark` promises.
pub open spec fn marks_soundly<T: Mark>(value: T) -> bool {
    forall|b: InGcView|
        #![trigger value.marked(b)]
        b.wf() ==> value.marked(b).wf() && value.marked(b).greyed_from(b)
}

impl<T: Mark> GcView<T> {
    /// Every value held marks soundly.
    pub open spec fn marking_sound(self) -> bool {
        forall|i: int|
            #![trigger self.heap[i]]
            0 <= i < self.heap.len() && self.heap[i] is Some ==> marks_soundly(
                self.heap[i]->Some_0,
            )
    }

    /// Every value held turns grey only objects that it refers to.
    pub open spec fn marking_exact(self) -> bool {
        forall|i: int|
            #![trigger self.heap[i]]
            0 <= i < self.heap.len() && self.heap[i] is Some ==> marks_only_referents(
                self.heap[i]->Some_0,
            )
    }

    /// `path` starts at a grey object and each object on it is live and
    /// referred to by the one before.
    pub open spec fn reaches_from_greys(self, path: Seq<Gc>) -> bool {
        &&& path.len() > 0
        &&& self.env.is_grey(path[0])
        &&& forall|i: int|
            #![trigger path[i + 1]]
            0 <= i < path.len() - 1 ==> self.live(path[i + 1]) && refers_to(
                self.content(path[i]),
                path[i + 1],
            )
    }

    /// Some path from a grey object ends at `y`.
    pub open spec fn reached_from_greys(self, y: Gc) -> bool {
        exists|path: Seq<Gc>| #[trigger] self.reaches_from_greys(path) && path.last() == y
    }

    /// Every object that is live and not white in `self` was not white in
    /// `v`, or is reached from a grey object of `v`.
    pub open spec fn non_whites_explained_by(self, v: GcView<T>) -> bool {
        forall|y: Gc|
            #![trigger self.env.is_white(y)]
            self.live(y) && !self.env.is_white(y) ==> !v.env.is_white(y) || v.reached_from_greys(y)
    }

    /// The three-colour invariant: no black object refers to a live white
    /// one.
    pub open spec fn no_black_to_white(self) -> bool {
        forall|x: Gc, y: Gc|
            #![trigger self.env.is_black(x), refers_to(self.content(x), y)]
            self.env.is_black(x) && self.live(y) && refers_to(self.content(x), y)
                ==> !self.env.is_white(y)
    }

    /// `path` starts at a root and each object on it is live and referred
    /// to by the one before.
    pub open spec fn reaches(self, path: Seq<Gc>) -> bool {
        &&& path.len() > 0
        &&& self.env.roots.contains(path[0])
        &&& forall|i: int|
            #![trigger path[i + 1]]
            0 <= i < path.len() - 1 ==> self.live(path[i + 1]) && refers_to(
                self.content(path[i]),
                path[i + 1],
            )
    }

    /// One marking step: the last grey object is taken off the grey list,
    /// turned black, and its value marks what it refers to.
    pub open spec fn mark_step(self) -> GcView<T> {
        let g = self.env.greys.last();
        let e = self.env.unbound_spec(g).colored_spec(g, self.env.black_color());
        GcView { env: self.content(g).marked(e), heap: self.heap }
    }

    /// `n` marking steps, stopping early when no object is grey.
    pub open spec fn marked_steps(self, n: nat) -> GcView<T>
        decreases n,
    {
        if n == 0 || self.env.greys.len() == 0 {
            self
        } else {
            self.mark_step().marked_steps((n - 1) as nat)
        }
    }

    /// Marking run to completion: every object reachable, through the
    /// values' `marked`, from a grey object ends black. One step per live
    /// object not yet black suffices.
    pub open spec fn fully_marked(self) -> GcView<T> {
        self.marked_steps(self.env.pending())
    }

    /// `self` is what `mark(steps)` makes of `old`: `steps` marking steps, or
    /// fewer when no grey object is left. Hence objects only darken, nothing
    /// is released, and each step blackens one grey object.
    pub open spec fn marked_from(self, old: GcView<T>, steps: usize) -> bool {
        &&& self == old.marked_steps(steps as nat)
        &&& self.heap == old.heap
        &&& self.env.darkened_from(old.env)
        &&& self.env.pending() + steps >= old.env.pending()
        &&& self.env.greys.len() == 0 || self.env.pending() + steps == old.env.pending()
        &&& (steps == 0 || old.env.greys.len() == 0) ==> self == old
    }

    /// `self` is what `sweep()` makes of `old`. Marking is run to completion
    /// (`old.fully_marked()`); exactly the objects still white then are
    /// released; the meaning of the tags is flipped, so that the black
    /// survivors become white; and the roots, in their order, become the
    /// grey objects. Hence only objects that were white are released, every
    /// object that was grey or black survives, when nothing was grey exactly
    /// the white objects are released, and surviving objects keep their
    /// values.
    pub open spec fn swept_from(self, old: GcView<T>) -> bool {
        &&& self.env.white_is_black == !old.env.white_is_black
        &&& self.env.auto == old.env.auto
        &&& self.env.roots == old.env.roots
        &&& self.env.colors.len() == old.env.colors.len()
        &&& self.env.greys == old.env.roots
        &&& self.env.blacks.len() == 0
        &&& self.env.whites == without_all(old.fully_marked().env.blacks, old.env.roots)
        &&& forall|g: Gc| #[trigger]
            self.env.color(g) == if old.env.roots.contains(g) {
                GcColor::Grey
            } else if old.fully_marked().env.is_white(g) {
                GcColor::Unbound
            } else {
                old.fully_marked().env.color(g)
            }
        &&& forall|g: Gc| #[trigger] self.live(g) ==> old.live(g)
        &&& forall|g: Gc| old.live(g) && !old.env.is_white(g) ==> #[trigger] self.live(g)
        &&& old.env.greys.len() == 0 ==> forall|g: Gc| #[trigger]
            self.live(g) <==> (old.live(g) && !old.env.is_white(g))
        &&& forall|g: Gc| #[trigger]
            self.live(g) ==> if self.env.roots.contains(g) {
                self.env.is_grey(g)
            } else {
                self.env.is_white(g)
            }
        &&& forall|i: int|
            #![trigger self.heap[i]]
            0 <= i < self.heap.len() ==> self.heap[i] == if self.env.colors[i]
                == GcColor::Unbound {
                None
            } else {
                old.heap[i]
            }
    }

    /// `self` is a state that the automatic collection step, run before an
    /// allocation or after a pause is lifted, can reach from `old`: nothing
    /// when `old` does not call for a collection, else a marking of at most
    /// `MAX_WHITES` steps followed by a sweep if whites are still many.
    pub open spec fn auto_collected_from(self, old: GcView<T>) -> bool {
        if old.wants_collection() {
            exists|mid: GcView<T>|
                #![trigger mid.marked_from(old, MAX_WHITES)]
                mid.marked_from(old, MAX_WHITES) && if mid.wants_collection() {
                    self.swept_from(mid)
                } else {
                    self == mid
                }
        } else {
            self == old
        }
    }

}

// ---------------------------------------------------------------------------
// Keeping a colour list in step with the colour table.
/// Recolouring an object from and to colours other than `c` leaves the list
/// of colour `c` in step.
pub proof fn lemma_tracks_other_update(
    list: Seq<Gc>,
    colors: Seq<GcColor>,
    c: GcColor,
    obj: Gc,
    v: GcColor,
)
    requires
        list_tracks(list, colors, c),
        obj@ < colors.len(),
        colors[obj@ as int] != c,
        v != c,
    ensures
        list_tracks(list, colors.update(obj@ as int, v), c),
{
    let nc = colors.update(obj@ as int, v);
    assert forall|g: Gc| #[trigger] list.contains(g) <==> color_at(nc, g) == c by {
        if g@ == obj@ {
            lemma_gc_view_injective(g, obj);
        }
    }
}

/// Giving an object colour `c` and pushing it on the list of colour `c`
/// keeps that list in step.
pub proof fn lemma_tracks_push(list: Seq<Gc>, colors: Seq<GcColor>, c: GcColor, obj: Gc)
    requires
        list_tracks(list, colors, c),
        obj@ < colors.len(),
        colors[obj@ as int] != c,
    ensures
        list_tracks(list.push(obj), colors.update(obj@ as int, c), c),
{
    let nc = colors.update(obj@ as int, c);
    assert(!list.contains(obj));
    lemma_push_no_duplicates(list, obj);
    assert forall|g: Gc| #[trigger] list.push(obj).contains(g) <==> color_at(nc, g) == c by {
        lemma_push_contains(list, obj, g);
        if g@ == obj@ {
            lemma_gc_view_injective(g, obj);
        }
    }
}

/// Taking the entry at `k` off the list of colour `c` and giving that object
/// another colour keeps the list in step.
pub proof fn lemma_tracks_remove(list: Seq<Gc>, colors: Seq<GcColor>, c: GcColor, k: int, v: GcColor)
    requires
        list_tracks(list, colors, c),
        c != GcColor::Unbound,
        0 <= k < list.len(),
        v != c,
    ensures
        list[k]@ < colors.len(),
        colors[list[k]@ as int] == c,
        list_tracks(list.remove(k), colors.update(list[k]@ as int, v), c),
{
    let obj = list[k];
    assert(list.contains(obj));
    let nc = colors.update(obj@ as int, v);
    assert forall|g: Gc| #[trigger] list.remove(k).contains(g) <==> color_at(nc, g) == c by {
        lemma_remove_contains(list, k, g);
        if g@ == obj@ {
            lemma_gc_view_injective(g, obj);
        }
    }
    lemma_remove_contains(list, k, obj);
}

/// A list in step with the colour table, and empty, means that no object
/// has that colour.
pub proof fn lemma_tracks_empty(list: Seq<Gc>, colors: Seq<GcColor>, c: GcColor, g: Gc)
    requires
        list_tracks(list, colors, c),
        list.len() == 0,
    ensures
        color_at(colors, g) != c,
{
    assert(!list.contains(g));
}

/// A new slot of a colour other than `c` leaves the list of colour `c` in
/// step.
pub proof fn lemma_tracks_extend_other(list: Seq<Gc>, colors: Seq<GcColor>, c: GcColor, v: GcColor)
    requires
        list_tracks(list, colors, c),
        c != GcColor::Unbound,
        v != c,
    ensures
        list_tracks(list, colors.push(v), c),
{
    let nc = colors.push(v);
    assert forall|g: Gc| #[trigger] list.contains(g) <==> color_at(nc, g) == c by {
        if g@ < colors.len() {
            assert(nc[g@ as int] == colors[g@ as int]);
        }
    }
}

/// A new slot of colour `c`, pushed on the list of colour `c`, keeps that
/// list in step.
pub proof fn lemma_tracks_extend_push(list: Seq<Gc>, colors: Seq<GcColor>, c: GcColor, obj: Gc)
    requires
        list_tracks(list, colors, c),
        c != GcColor::Unbound,
        obj@ == colors.len(),
    ensures
        list_tracks(list.push(obj), colors.push(c), c),
{
    let nc = colors.push(c);
    assert(!list.contains(obj));
    lemma_push_no_duplicates(list, obj);
    assert forall|g: Gc| #[trigger] list.push(obj).contains(g) <==> color_at(nc, g) == c by {
        lemma_push_contains(list, obj, g);
        if g@ == obj@ {
            lemma_gc_view_injective(g, obj);
        }
        if g@ < colors.len() {
            assert(nc[g@ as int] == colors[g@ as int]);
        }
    }
}

/// Darkening twice is darkening.
pub proof fn lemma_darkened_trans(a: InGcView, b: InGcView, c: InGcView)
    requires
        b.darkened_from(a),
        c.darkened_from(b),
    ensures
        c.darkened_from(a),
{
    assert forall|i: int| 0 <= i < c.colors.len() implies {
        ||| c.colors[i] == a.colors[i]
        ||| a.colors[i] == a.white_color() && (c.colors[i] == GcColor::Grey || c.colors[i]
            == a.black_color())
        ||| a.colors[i] == GcColor::Grey && c.colors[i] == a.black_color()
    } by {
        assert(b.colors[i] == a.colors[i] || b.colors[i] == GcColor::Grey || b.colors[i]
            == a.black_color());
    }
}

/// Darkening the bookkeeping, with the same heap, keeps a collector well
/// formed.
pub proof fn lemma_darkened_keeps_wf<T>(old: GcView<T>, new: GcView<T>)
    requires
        old.wf(),
        new.env.wf(),
        new.heap == old.heap,
        new.env.darkened_from(old.env),
    ensures
        new.wf(),
{
    assert forall|i: int| 0 <= i < new.heap.len() implies (#[trigger] new.heap[i] is Some
        <==> new.env.colors[i] != GcColor::Unbound) by {
        assert(old.heap[i] is Some <==> old.env.colors[i] != GcColor::Unbound);
        assert(new.env.colors[i] == old.env.colors[i] || new.env.colors[i] == GcColor::Grey
            || new.env.colors[i] == old.env.black_color());
    }
    assert forall|r: Gc| #[trigger] new.env.roots.contains(r) implies new.env.live(r)
        && !new.env.is_white(r) by {
        assert(old.env.live(r) && !old.env.is_white(r));
        assert(new.env.colors[r@ as int] == old.env.colors[r@ as int] || new.env.colors[r@ as int]
            == GcColor::Grey || new.env.colors[r@ as int] == old.env.black_color());
    }
}

/// Turning the live object `g` grey, and perhaps making it a root, keeps a
/// collector well formed.
pub proof fn lemma_greyed_keeps_wf<T>(old: GcView<T>, new: GcView<T>, g: Gc)
    requires
        old.wf(),
        new.env.wf(),
        new.heap == old.heap,
        old.live(g),
        new.env.colors == old.env.colors.update(g@ as int, GcColor::Grey),
        new.env.white_is_black == old.env.white_is_black,
        forall|r: Gc| #[trigger] new.env.roots.contains(r) ==> old.env.roots.contains(r) || r == g,
    ensures
        new.wf(),
{
    assert forall|i: int| 0 <= i < new.heap.len() implies (#[trigger] new.heap[i] is Some
        <==> new.env.colors[i] != GcColor::Unbound) by {
        assert(old.heap[i] is Some <==> old.env.colors[i] != GcColor::Unbound);
    }
    assert forall|r: Gc| #[trigger] new.env.roots.contains(r) implies new.env.live(r)
        && !new.env.is_white(r) by {
        lemma_gc_view_injective(r, g);
        if r != g {
            assert(old.env.live(r) && !old.env.is_white(r));
        }
    }
}

/// Taking a live object off its list keeps the bookkeeping consistent.
pub proof fn lemma_unbound_wf(v: InGcView, g: Gc)
    requires
        v.wf(),
        v.live(g),
    ensures
        v.unbound_spec(g).wf(),
        v.unbound_spec(g).colors == v.colors.update(g@ as int, GcColor::Unbound),
{
    let c = v.color(g);
    let u = GcColor::Unbound;
    if c == GcColor::Grey {
        assert(v.greys.contains(g));
        let k = choose|k: int| 0 <= k < v.greys.len() && v.greys[k] == g;
        lemma_without(v.greys, g, k);
        lemma_tracks_remove(v.greys, v.colors, c, k, u);
        lemma_tracks_other_update(v.whites, v.colors, v.white_color(), g, u);
        lemma_tracks_other_update(v.blacks, v.colors, v.black_color(), g, u);
    } else if c == v.white_color() {
        assert(v.whites.contains(g));
        let k = choose|k: int| 0 <= k < v.whites.len() && v.whites[k] == g;
        lemma_without(v.whites, g, k);
        lemma_tracks_remove(v.whites, v.colors, c, k, u);
        lemma_tracks_other_update(v.greys, v.colors, GcColor::Grey, g, u);
        lemma_tracks_other_update(v.blacks, v.colors, v.black_color(), g, u);
    } else {
        assert(c == v.black_color());
        assert(v.blacks.contains(g));
        let k = choose|k: int| 0 <= k < v.blacks.len() && v.blacks[k] == g;
        lemma_without(v.blacks, g, k);
        lemma_tracks_remove(v.blacks, v.colors, c, k, u);
        lemma_tracks_other_update(v.greys, v.colors, GcColor::Grey, g, u);
        lemma_tracks_other_update(v.whites, v.colors, v.white_color(), g, u);
    }
}

/// Giving an unbound object a tag and pushing it on its list keeps the
/// bookkeeping consistent.
pub proof fn lemma_colored_wf(v: InGcView, g: Gc, c: GcColor)
    requires
        v.wf(),
        g@ < v.colors.len(),
        v.color(g) == GcColor::Unbound,
        c != GcColor::Unbound,
    ensures
        v.colored_spec(g, c).wf(),
        v.colored_spec(g, c).colors == v.colors.update(g@ as int, c),
{
    if c == GcColor::Grey {
        lemma_tracks_push(v.greys, v.colors, c, g);
        lemma_tracks_other_update(v.whites, v.colors, v.white_color(), g, c);
        lemma_tracks_other_update(v.blacks, v.colors, v.black_color(), g, c);
    } else if c == v.white_color() {
        lemma_tracks_push(v.whites, v.colors, c, g);
        lemma_tracks_other_update(v.greys, v.colors, GcColor::Grey, g, c);
        lemma_tracks_other_update(v.blacks, v.colors, v.black_color(), g, c);
    } else {
        lemma_tracks_push(v.blacks, v.colors, c, g);
        lemma_tracks_other_update(v.greys, v.colors, GcColor::Grey, g, c);
        lemma_tracks_other_update(v.whites, v.colors, v.white_color(), g, c);
    }
}

// ---------------------------------------------------------------------------
// Counting unfinished objects.
/// Recolouring one slot changes the count by the difference of the weights.
pub proof fn lemma_count_update(s: Seq<GcColor>, i: int, v: GcColor, black: GcColor)
    requires
        0 <= i < s.len(),
    ensures
        count_unfinished(s.update(i, v), black) + unfinished(s[i], black) == count_unfinished(
            s,
            black,
        ) + unfinished(v, black),
    decreases s.len(),
{
    let t = s.update(i, v);
    if i == s.len() - 1 {
        assert(t.drop_last() =~= s.drop_last());
    } else {
        lemma_count_update(s.drop_last(), i, v, black);
        assert(t.drop_last() =~= s.drop_last().update(i, v));
    }
}

/// Two tables whose slots have the same weights have the same count.
pub proof fn lemma_count_same_weights(a: Seq<GcColor>, b: Seq<GcColor>, black: GcColor)
    requires
        a.len() == b.len(),
        forall|i: int| 0 <= i < a.len() ==> unfinished(a[i], black) == unfinished(b[i], black),
    ensures
        count_unfinished(a, black) == count_unfinished(b, black),
    decreases a.len(),
{
    if a.len() > 0 {
        lemma_count_same_weights(a.drop_last(), b.drop_last(), black);
    }
}

/// The count is at least the weight of any one slot.
pub proof fn lemma_count_at_least(s: Seq<GcColor>, i: int, black: GcColor)
    requires
        0 <= i < s.len(),
    ensures
        count_unfinished(s, black) >= unfinished(s[i], black),
    decreases s.len(),
{
    if i < s.len() - 1 {
        lemma_count_at_least(s.drop_last(), i, black);
    }
}

/// One marking step (a grey object turned black, and some white objects
/// turned grey) lowers the number of unfinished objects by one.
pub proof fn lemma_mark_step_pending(before: InGcView, after: InGcView, x: int)
    requires
        0 <= x < before.colors.len(),
        before.colors[x] == GcColor::Grey,
        after.colors.len() == before.colors.len(),
        after.white_is_black == before.white_is_black,
        after.colors[x] == before.black_color(),
        forall|i: int|
            #![trigger after.colors[i]]
            0 <= i < after.colors.len() && i != x ==> after.colors[i] == before.colors[i] || (
            before.colors[i] == before.white_color() && after.colors[i] == GcColor::Grey),
    ensures
        after.pending() + 1 == before.pending(),
{
    let black = before.black_color();
    let mid = before.colors.update(x, black);
    lemma_count_update(before.colors, x, black, black);
    assert forall|i: int| 0 <= i < mid.len() implies unfinished(mid[i], black) == unfinished(
        after.colors[i],
        black,
    ) by {
        if i != x {
            assert(after.colors[i] == before.colors[i] || (before.colors[i]
                == before.white_color() && after.colors[i] == GcColor::Grey));
        }
    }
    lemma_count_same_weights(mid, after.colors, black);
}

/// One marking step of a collector whose values mark soundly keeps it
/// well formed, darkens it, lowers the pending count by one, and keeps the
/// three-colour invariant.
pub proof fn lemma_mark_step_facts<T: Mark>(w: GcView<T>)
    requires
        w.wf(),
        w.marking_sound(),
        w.env.greys.len() > 0,
    ensures
        w.mark_step().wf(),
        w.mark_step().heap == w.heap,
        w.mark_step().marking_sound(),
        w.mark_step().env.darkened_from(w.env),
        w.mark_step().env.pending() + 1 == w.env.pending(),
        w.no_black_to_white() ==> w.mark_step().no_black_to_white(),
{
    let g = w.env.greys.last();
    assert(w.env.greys.contains(g));
    let black = w.env.black_color();
    let u = w.env.unbound_spec(g);
    lemma_unbound_wf(w.env, g);
    assert(u.color(g) == GcColor::Unbound);
    lemma_colored_wf(u, g, black);
    let e = u.colored_spec(g, black);
    assert(e.colors == w.env.colors.update(g@ as int, black));
    let x = g@ as int;
    assert(w.heap[x] is Some);
    let c = w.content(g);
    assert(marks_soundly(c));
    let m = w.mark_step();
    assert(m.env == c.marked(e));
    assert(m.env.wf() && m.env.greyed_from(e));
    assert forall|i: int| 0 <= i < m.env.colors.len() && i != x implies #[trigger] m.env.colors[i]
        == w.env.colors[i] || (w.env.colors[i] == w.env.white_color() && m.env.colors[i]
        == GcColor::Grey) by {
        assert(e.colors[i] == w.env.colors[i]);
    }
    assert(m.env.colors[x] == black) by {
        assert(e.colors[x] == black);
    }
    lemma_mark_step_pending(w.env, m.env, x);
    assert forall|i: int| 0 <= i < m.env.colors.len() implies {
        ||| #[trigger] m.env.colors[i] == w.env.colors[i]
        ||| w.env.colors[i] == w.env.white_color() && (m.env.colors[i] == GcColor::Grey
            || m.env.colors[i] == w.env.black_color())
        ||| w.env.colors[i] == GcColor::Grey && m.env.colors[i] == w.env.black_color()
    } by {
        if i != x {
            assert(m.env.colors[i] == w.env.colors[i] || (w.env.colors[i] == w.env.white_color()
                && m.env.colors[i] == GcColor::Grey));
        }
    }
    lemma_darkened_keeps_wf(w, m);
    if w.no_black_to_white() {
        assert forall|a: Gc, y: Gc|
            #![trigger m.env.is_black(a), refers_to(m.content(a), y)]
            m.env.is_black(a) && m.live(y) && refers_to(m.content(a), y) implies !m.env.is_white(
            y,
        ) by {
            assert(m.content(a) == w.content(a));
            let yi = y@ as int;
            assert(m.env.colors[yi] == e.colors[yi] || (e.colors[yi] == e.white_color()
                && m.env.colors[yi] == GcColor::Grey));
            if a == g {
                if e.is_white(y) {
                    assert(c.marked(e).is_grey(y));
                }
            } else {
                lemma_gc_view_injective(a, g);
                let ai = a@ as int;
                assert(m.env.colors[ai] == e.colors[ai] || (e.colors[ai] == e.white_color()
                    && m.env.colors[ai] == GcColor::Grey));
                assert(w.env.is_black(a));
                if y == g {
                } else {
                    lemma_gc_view_injective(y, g);
                    assert(w.live(y));
                    assert(!w.env.is_white(y));
                }
            }
        }
    }
}

/// Any number of marking steps keeps a collector whose values mark soundly
/// well formed and darkens it; it keeps the three-colour invariant; and
/// with at least as many steps as objects pending it leaves nothing grey.
pub proof fn lemma_marked_steps_facts<T: Mark>(w: GcView<T>, n: nat)
    requires
        w.wf(),
        w.marking_sound(),
    ensures
        w.marked_steps(n).wf(),
        w.marked_steps(n).heap == w.heap,
        w.marked_steps(n).marking_sound(),
        w.marked_steps(n).env.darkened_from(w.env),
        w.no_black_to_white() ==> w.marked_steps(n).no_black_to_white(),
        w.env.pending() <= n ==> w.marked_steps(n).env.greys.len() == 0,
    decreases n,
{
    if n == 0 || w.env.greys.len() == 0 {
        if w.env.greys.len() > 0 && w.env.pending() <= n {
            let g = w.env.greys[0];
            assert(w.env.greys.contains(g));
            lemma_count_at_least(w.env.colors, g@ as int, w.env.black_color());
        }
    } else {
        lemma_mark_step_facts(w);
        let m = w.mark_step();
        lemma_marked_steps_facts(m, (n - 1) as nat);
        lemma_darkened_trans(w.env, m.env, m.marked_steps((n - 1) as nat).env);
    }
}

/// Marking steps of a collector whose values turn grey only what they
/// refer to make non-white only objects reached from a grey object.
pub proof fn lemma_marked_steps_explained<T: Mark>(v: GcView<T>, w: GcView<T>, n: nat)
    requires
        w.wf(),
        w.marking_sound(),
        w.marking_exact(),
        w.heap == v.heap,
        w.env.darkened_from(v.env),
        w.non_whites_explained_by(v),
    ensures
        w.marked_steps(n).non_whites_explained_by(v),
    decreases n,
{
    if n > 0 && w.env.greys.len() > 0 {
        lemma_mark_step_facts(w);
        let m = w.mark_step();
        let g = w.env.greys.last();
        assert(w.env.greys.contains(g));
        let black = w.env.black_color();
        let u = w.env.unbound_spec(g);
        lemma_unbound_wf(w.env, g);
        assert(u.color(g) == GcColor::Unbound);
        lemma_colored_wf(u, g, black);
        let e = u.colored_spec(g, black);
        let c = w.content(g);
        assert(w.heap[g@ as int] is Some);
        assert(marks_soundly(c) && marks_only_referents(c));
        // g itself is a grey of v or reached from one
        let gp: Seq<Gc> = if v.env.is_grey(g) {
            seq![g]
        } else {
            assert(w.live(g) && !w.env.is_white(g));
            let gi = g@ as int;
            assert(w.env.colors[gi] == v.env.colors[gi] || v.env.colors[gi] == v.env.white_color()
                || v.env.colors[gi] == GcColor::Grey);
            choose|p: Seq<Gc>| #[trigger] v.reaches_from_greys(p) && p.last() == g
        };
        assert(v.reaches_from_greys(gp) && gp.last() == g);
        assert forall|y: Gc| #![trigger m.env.is_white(y)] m.live(y) && !m.env.is_white(y) implies !v.env.is_white(
            y,
        ) || v.reached_from_greys(y) by {
            let yi = y@ as int;
            assert(m.env.colors[yi] == e.colors[yi] || (e.colors[yi] == e.white_color()
                && m.env.colors[yi] == GcColor::Grey));
            lemma_gc_view_injective(y, g);
            if e.is_white(y) {
                assert(c.marked(e).is_grey(y));
                assert(refers_to(c, y));
                let p = gp.push(y);
                assert(v.live(y)) by {
                    assert(m.env.darkened_from(w.env));
                    assert(m.env.colors[yi] == w.env.colors[yi] || m.env.colors[yi] != GcColor::Unbound);
                    assert(w.env.colors[yi] == v.env.colors[yi] || w.env.colors[yi] != GcColor::Unbound);
                }
                assert forall|i: int| #![trigger p[i + 1]] 0 <= i < p.len() - 1 implies v.live(p[i + 1])
                    && refers_to(v.content(p[i]), p[i + 1]) by {
                    if i < gp.len() - 1 {
                        assert(p[i + 1] == gp[i + 1]);
                        assert(p[i] == gp[i]);
                    } else {
                        assert(p[i] == g);
                        assert(p[i + 1] == y);
                        assert(v.content(g) == c);
                    }
                }
                assert(p[0] == gp[0]);
                assert(v.reaches_from_greys(p) && p.last() == y);
            } else if y == g {
                if !v.env.is_grey(g) {
                }
            } else {
                assert(w.env.colors[yi] == e.colors[yi]);
                assert(w.live(y) && !w.env.is_white(y));
            }
        }
        lemma_darkened_trans(v.env, w.env, m.env);
        lemma_marked_steps_explained(v, m, (n - 1) as nat);
    }
}

/// `a` steps and then `b` steps are `a + b` steps.
pub proof fn lemma_marked_steps_add<T: Mark>(v: GcView<T>, a: nat, b: nat)
    ensures
        v.marked_steps(a + b) == v.marked_steps(a).marked_steps(b),
    decreases a,
{
    if a > 0 && v.env.greys.len() > 0 {
        lemma_marked_steps_add(v.mark_step(), (a - 1) as nat, b);
        assert((a + b - 1) as nat == (a - 1) as nat + b);
    }
}

/// What the phases of a sweep add up to: `s1` finished marking `s0`,
/// `s2` released the white objects of `s1`, `s3` flipped the meaning of the
/// tags, and `n` turned the roots grey.
pub proof fn lemma_sweep_outcome<T: Mark>(
    s0: GcView<T>,
    s1: GcView<T>,
    s2: GcView<T>,
    s3: GcView<T>,
    n: GcView<T>,
)
    requires
        s0.wf(),
        s1.wf(),
        s1 == s0.fully_marked(),
        s1.heap == s0.heap,
        s1.env.darkened_from(s0.env),
        s0.env.greys.len() == 0 ==> s1 == s0,
        s1.env.greys.len() == 0,
        s2.env.colors.len() == s1.env.colors.len(),
        s2.heap.len() == s1.heap.len(),
        s2.env.roots == s1.env.roots,
        s2.env.white_is_black == s1.env.white_is_black,
        s2.env.auto == s1.env.auto,
        forall|i: int|
            #![trigger s2.env.colors[i]]
            0 <= i < s1.env.colors.len() ==> s2.env.colors[i] == s1.env.colors[i] || (
            s1.env.colors[i] == s1.env.white_color() && s2.env.colors[i] == GcColor::Unbound),
        forall|i: int|
            #![trigger s2.heap[i]]
            0 <= i < s1.env.colors.len() ==> s2.heap[i] == if s2.env.colors[i]
                == GcColor::Unbound {
                None
            } else {
                s1.heap[i]
            },
        forall|g: Gc| #[trigger] s2.env.color(g) != s1.env.white_color(),
        s3.env.colors == s2.env.colors,
        s3.heap == s2.heap,
        s3.env.roots == s2.env.roots,
        s3.env.white_is_black == !s2.env.white_is_black,
        s3.env.auto == s2.env.auto,
        n.env.wf(),
        n.heap == s3.heap,
        n.env.roots == s3.env.roots,
        n.env.white_is_black == s3.env.white_is_black,
        n.env.auto == s3.env.auto,
        n.env.colors.len() == s3.env.colors.len(),
        n.heap.len() <= usize::MAX,
        n.env.greys == s3.env.roots,
        n.env.blacks.len() == 0,
        n.env.whites == without_all(s1.env.blacks, s0.env.roots),
        forall|g: Gc| #[trigger]
            n.env.color(g) == if s3.env.roots.contains(g) {
                GcColor::Grey
            } else {
                s3.env.color(g)
            },
    ensures
        n.wf(),
        n.swept_from(s0),
{
    // The colour of every object at the end, in terms of `s1`.
    assert forall|g: Gc| #[trigger] s2.env.color(g) == if s1.env.color(g) == s1.env.white_color() {
        GcColor::Unbound
    } else {
        s1.env.color(g)
    } by {
        if g@ < s1.env.colors.len() {
            assert(s2.env.colors[g@ as int] == s1.env.colors[g@ as int] || s2.env.colors[g@ as int]
                == GcColor::Unbound);
        }
    }
    assert forall|g: Gc| !(#[trigger] s1.env.is_grey(g)) by {
        lemma_tracks_empty(s1.env.greys, s1.env.colors, GcColor::Grey, g);
    }
    // Marking neither releases nor creates objects, nor whitens any.
    assert forall|g: Gc| #[trigger] s1.env.color(g) == GcColor::Unbound <==> s0.env.color(g)
        == GcColor::Unbound by {
        if g@ < s1.env.colors.len() {
            let i = g@ as int;
            assert(s1.env.colors[i] == s0.env.colors[i] || s1.env.colors[i] != GcColor::Unbound);
        }
    }
    assert forall|g: Gc| #[trigger] s1.env.is_white(g) implies s0.env.is_white(g) by {
        if g@ < s1.env.colors.len() {
            let i = g@ as int;
            assert(s1.env.colors[i] == s0.env.colors[i] || s1.env.colors[i] == GcColor::Grey
                || s1.env.colors[i] == s0.env.black_color());
        }
    }
    assert forall|g: Gc| #[trigger] n.live(g) implies s0.live(g) by {
        if n.live(g) {
            if s3.env.roots.contains(g) {
                assert(s0.env.roots.contains(g));
            } else {
                assert(s2.env.color(g) == s3.env.color(g));
            }
        }
    }
    assert forall|g: Gc| s0.live(g) && !s0.env.is_white(g) implies #[trigger] n.live(g) by {
        if !s3.env.roots.contains(g) {
            assert(s2.env.color(g) == s3.env.color(g));
            assert(!s1.env.is_white(g));
        }
    }
    if s0.env.greys.len() == 0 {
        assert forall|g: Gc| #[trigger] n.live(g) <==> (s0.live(g) && !s0.env.is_white(g)) by {
            if s3.env.roots.contains(g) {
                assert(s0.env.roots.contains(g));
            } else {
                assert(s2.env.color(g) == s3.env.color(g));
            }
        }
    }
    assert forall|g: Gc| #[trigger] n.live(g) implies if n.env.roots.contains(g) {
        n.env.is_grey(g)
    } else {
        n.env.is_white(g)
    } by {
        if !n.env.roots.contains(g) {
            assert(s2.env.color(g) == s3.env.color(g));
            assert(!s1.env.is_grey(g));
            assert(s1.env.color(g) == s1.env.black_color() || s1.env.color(g) == GcColor::Unbound
                || s1.env.color(g) == s1.env.white_color());
        }
    }
    assert forall|i: int| 0 <= i < n.heap.len() implies #[trigger] n.heap[i] == if n.env.colors[i]
        == GcColor::Unbound {
        None
    } else {
        s0.heap[i]
    } by {
        let g = Gc::from_index_spec(i);
        lemma_from_index_spec(i);
        assert(n.env.color(g) == n.env.colors[i]);
        assert(s3.env.color(g) == s3.env.colors[i]);
        if s3.env.roots.contains(g) {
            assert(s0.env.roots.contains(g));
            assert(s2.env.color(g) == s3.env.color(g));
        }
        assert(n.env.colors[i] == GcColor::Unbound <==> s2.env.colors[i] == GcColor::Unbound);
    }
    assert forall|i: int| 0 <= i < n.heap.len() implies (#[trigger] n.heap[i] is Some
        <==> n.env.colors[i] != GcColor::Unbound) by {
        assert(s0.heap[i] is Some <==> s0.env.colors[i] != GcColor::Unbound);
        let g = Gc::from_index_spec(i);
        lemma_from_index_spec(i);
        assert(n.env.color(g) == n.env.colors[i]);
        assert(s0.env.color(g) == s0.env.colors[i]);
        if n.live(g) {
            assert(s0.live(g));
        }
    }
    assert forall|g: Gc| #[trigger] n.env.color(g) == if s0.env.roots.contains(g) {
        GcColor::Grey
    } else if s1.env.is_white(g) {
        GcColor::Unbound
    } else {
        s1.env.color(g)
    } by {
        assert(s3.env.color(g) == s2.env.color(g));
        assert(s2.env.color(g) == if s1.env.color(g) == s1.env.white_color() {
            GcColor::Unbound
        } else {
            s1.env.color(g)
        });
    }
}

} // verus!
