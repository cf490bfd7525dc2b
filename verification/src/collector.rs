//! The collector: the colour bookkeeping (`InGcEnv`), the trait through which
//! objects mark what they refer to (`Mark`), and the collector with its
//! heap of objects (`GcEnv`).
use vstd::prelude::*;

use crate::model::{
    lemma_darkened_trans, lemma_gc_view_injective, lemma_mark_step_pending, lemma_sweep_outcome, lemma_marked_steps_add, lemma_darkened_keeps_wf, lemma_greyed_keeps_wf,
    lemma_tracks_empty, lemma_tracks_extend_other, lemma_tracks_extend_push,
    lemma_tracks_other_update, lemma_tracks_push, lemma_tracks_remove, Gc, GcColor, GcView,
    InGcView, MAX_WHITES, lemma_from_index_spec, lemma_without, without_all, lemma_unbound_wf, lemma_colored_wf, marks_soundly, marks_only_referents, refers_to,
};
use crate::seq_lemmas::{lemma_push_contains, lemma_push_no_duplicates, lemma_remove_contains};

verus! {

/// The colour bookkeeping of a collector: the colour of each object, the
/// lists of white, grey and black objects, and the roots.
pub struct InGcEnv {
    colors: Vec<GcColor>,
    whites: Vec<Gc>,
    greys: Vec<Gc>,
    blacks: Vec<Gc>,
    roots: Vec<Gc>,
    white_is_black: bool,
    auto: bool,
}

impl View for InGcEnv {
    type V = InGcView;

    closed spec fn view(&self) -> InGcView {
        InGcView {
            colors: self.colors@,
            whites: self.whites@,
            greys: self.greys@,
            blacks: self.blacks@,
            roots: self.roots@,
            white_is_black: self.white_is_black,
            auto: self.auto,
        }
    }
}

/// The index in `list` of `obj`, which it holds.
fn position(list: &Vec<Gc>, obj: Gc) -> (k: usize)
    requires
        list@.contains(obj),
    ensures
        k < list@.len(),
        list@[k as int] == obj,
{
    let mut i: usize = 0;
    while i < list.len()
        invariant
            i <= list@.len(),
            list@.contains(obj),
            forall|j: int| 0 <= j < i ==> list@[j] != obj,
        decreases list@.len() - i,
    {
        if list[i] == obj {
            return i;
        }
        i = i + 1;
    }
    proof {
        let j = choose|j: int| 0 <= j < list@.len() && list@[j] == obj;
        assert(list@[j] != obj);
    }
    0
}

/// Whether `list` holds `obj`.
fn list_contains(list: &Vec<Gc>, obj: Gc) -> (b: bool)
    ensures
        b == list@.contains(obj),
{
    let mut i: usize = 0;
    while i < list.len()
        invariant
            i <= list@.len(),
            forall|j: int| 0 <= j < i ==> list@[j] != obj,
        decreases list@.len() - i,
    {
        if list[i] == obj {
            assert(list@[i as int] == obj);
            return true;
        }
        i = i + 1;
    }
    false
}

/// Takes `obj`, which `list` holds, out of `list`.
fn take_out(list: &mut Vec<Gc>, obj: Gc) -> (k: usize)
    requires
        old(list)@.contains(obj),
    ensures
        k < old(list)@.len(),
        old(list)@[k as int] == obj,
        final(list)@ == old(list)@.remove(k as int),
{
    let k = position(list, obj);
    list.remove(k);
    k
}

impl InGcEnv {
    pub open spec fn wf(&self) -> bool {
        self@.wf()
    }

    fn new(auto: bool) -> (e: InGcEnv)
        ensures
            e.wf(),
            e@.colors.len() == 0,
            e@.whites.len() == 0,
            e@.greys.len() == 0,
            e@.blacks.len() == 0,
            e@.roots.len() == 0,
            !e@.white_is_black,
            e@.auto == auto,
    {
        InGcEnv {
            colors: Vec::new(),
            whites: Vec::new(),
            greys: Vec::new(),
            blacks: Vec::new(),
            roots: Vec::new(),
            white_is_black: false,
            auto,
        }
    }

    /// The name of a colour as it is currently read: the physical tags
    /// `White` and `Black` swap names when the meaning of the tags flips.
    pub fn col(&self, c: GcColor) -> (name: &'static str)
        ensures
            name@ == if c == GcColor::Unbound {
                "unbound"@
            } else if c == GcColor::Grey {
                "grey"@
            } else if c == self@.white_color() {
                "white"@
            } else {
                "black"@
            },
    {
        match c {
            GcColor::Unbound => "unbound",
            GcColor::Grey => "grey",
            GcColor::White => {
                if self.white_is_black {
                    "black"
                } else {
                    "white"
                }
            },
            GcColor::Black => {
                if self.white_is_black {
                    "white"
                } else {
                    "black"
                }
            },
        }
    }

    /// The colour of `obj`; `Unbound` for a handle of no slot.
    fn color(&self, obj: Gc) -> (c: GcColor)
        ensures
            c == self@.color(obj),
    {
        if obj.index() < self.colors.len() {
            self.colors[obj.index()]
        } else {
            GcColor::Unbound
        }
    }

    /// Takes the live object `obj` out of its colour list and leaves it
    /// unbound.
    fn remove(&mut self, obj: Gc)
        requires
            old(self).wf(),
            old(self)@.live(obj),
        ensures
            final(self).wf(),
            final(self)@ == old(self)@.unbound_spec(obj),
            final(self)@.colors == old(self)@.colors.update(obj@ as int, GcColor::Unbound),
            final(self)@.roots == old(self)@.roots,
            final(self)@.white_is_black == old(self)@.white_is_black,
            final(self)@.auto == old(self)@.auto,
    {
        let ghost v = self@;
        let color = self.color(obj);
        let i = obj.index();
        self.colors[i] = GcColor::Unbound;
        match color {
            GcColor::Unbound => {},
            GcColor::Grey => {
                proof {
                    assert(v.greys.contains(obj));
                }
                let k = take_out(&mut self.greys, obj);
                proof {
                    lemma_tracks_remove(v.greys, v.colors, GcColor::Grey, k as int, GcColor::Unbound);
                    lemma_without(v.greys, obj, k as int);
                    lemma_tracks_other_update(v.whites, v.colors, v.white_color(), obj, GcColor::Unbound);
                    lemma_tracks_other_update(v.blacks, v.colors, v.black_color(), obj, GcColor::Unbound);
                }
            },
            GcColor::White => {
                if self.white_is_black {
                    proof {
                        assert(v.blacks.contains(obj));
                    }
                    let k = take_out(&mut self.blacks, obj);
                    proof {
                        lemma_tracks_remove(v.blacks, v.colors, v.black_color(), k as int, GcColor::Unbound);
                        lemma_without(v.blacks, obj, k as int);
                        lemma_tracks_other_update(v.whites, v.colors, v.white_color(), obj, GcColor::Unbound);
                        lemma_tracks_other_update(v.greys, v.colors, GcColor::Grey, obj, GcColor::Unbound);
                    }
                } else {
                    proof {
                        assert(v.whites.contains(obj));
                    }
                    let k = take_out(&mut self.whites, obj);
                    proof {
                        lemma_tracks_remove(v.whites, v.colors, v.white_color(), k as int, GcColor::Unbound);
                        lemma_without(v.whites, obj, k as int);
                        lemma_tracks_other_update(v.blacks, v.colors, v.black_color(), obj, GcColor::Unbound);
                        lemma_tracks_other_update(v.greys, v.colors, GcColor::Grey, obj, GcColor::Unbound);
                    }
                }
            },
            GcColor::Black => {
                if self.white_is_black {
                    proof {
                        assert(v.whites.contains(obj));
                    }
                    let k = take_out(&mut self.whites, obj);
                    proof {
                        lemma_tracks_remove(v.whites, v.colors, v.white_color(), k as int, GcColor::Unbound);
                        lemma_without(v.whites, obj, k as int);
                        lemma_tracks_other_update(v.blacks, v.colors, v.black_color(), obj, GcColor::Unbound);
                        lemma_tracks_other_update(v.greys, v.colors, GcColor::Grey, obj, GcColor::Unbound);
                    }
                } else {
                    proof {
                        assert(v.blacks.contains(obj));
                    }
                    let k = take_out(&mut self.blacks, obj);
                    proof {
                        lemma_tracks_remove(v.blacks, v.colors, v.black_color(), k as int, GcColor::Unbound);
                        lemma_without(v.blacks, obj, k as int);
                        lemma_tracks_other_update(v.whites, v.colors, v.white_color(), obj, GcColor::Unbound);
                        lemma_tracks_other_update(v.greys, v.colors, GcColor::Grey, obj, GcColor::Unbound);
                    }
                }
            },
        }
        proof {
            assert(self@ =~= v.unbound_spec(obj));
        }
    }

    /// Gives the unbound object `obj` colour `color` and puts it on the list
    /// of that colour.
    fn add(&mut self, obj: Gc, color: GcColor)
        requires
            old(self).wf(),
            obj@ < old(self)@.colors.len(),
            old(self)@.color(obj) == GcColor::Unbound,
            color != GcColor::Unbound,
        ensures
            final(self).wf(),
            final(self)@ == old(self)@.colored_spec(obj, color),
            final(self)@.colors == old(self)@.colors.update(obj@ as int, color),
            final(self)@.roots == old(self)@.roots,
            final(self)@.white_is_black == old(self)@.white_is_black,
            final(self)@.auto == old(self)@.auto,
    {
        let ghost v = self@;
        let i = obj.index();
        self.colors[i] = color;
        match color {
            GcColor::Unbound => {},
            GcColor::Grey => {
                self.greys.push(obj);
                proof {
                    lemma_tracks_push(v.greys, v.colors, GcColor::Grey, obj);
                    lemma_tracks_other_update(v.whites, v.colors, v.white_color(), obj, color);
                    lemma_tracks_other_update(v.blacks, v.colors, v.black_color(), obj, color);
                }
            },
            GcColor::White => {
                if self.white_is_black {
                    self.blacks.push(obj);
                    proof {
                        lemma_tracks_push(v.blacks, v.colors, v.black_color(), obj);
                        lemma_tracks_other_update(v.whites, v.colors, v.white_color(), obj, color);
                        lemma_tracks_other_update(v.greys, v.colors, GcColor::Grey, obj, color);
                    }
                } else {
                    self.whites.push(obj);
                    proof {
                        lemma_tracks_push(v.whites, v.colors, v.white_color(), obj);
                        lemma_tracks_other_update(v.blacks, v.colors, v.black_color(), obj, color);
                        lemma_tracks_other_update(v.greys, v.colors, GcColor::Grey, obj, color);
                    }
                }
            },
            GcColor::Black => {
                if self.white_is_black {
                    self.whites.push(obj);
                    proof {
                        lemma_tracks_push(v.whites, v.colors, v.white_color(), obj);
                        lemma_tracks_other_update(v.blacks, v.colors, v.black_color(), obj, color);
                        lemma_tracks_other_update(v.greys, v.colors, GcColor::Grey, obj, color);
                    }
                } else {
                    self.blacks.push(obj);
                    proof {
                        lemma_tracks_push(v.blacks, v.colors, v.black_color(), obj);
                        lemma_tracks_other_update(v.whites, v.colors, v.white_color(), obj, color);
                        lemma_tracks_other_update(v.greys, v.colors, GcColor::Grey, obj, color);
                    }
                }
            },
        }
        proof {
            assert(self@ =~= v.colored_spec(obj, color));
        }
    }

    /// Moves `obj` to colour `color`, out of the list it was on, if any.
    fn movec(&mut self, obj: Gc, color: GcColor)
        requires
            old(self).wf(),
            obj@ < old(self)@.colors.len(),
            color != GcColor::Unbound,
        ensures
            final(self).wf(),
            final(self)@ == old(self)@.moved_spec(obj, color),
            final(self)@.colors == old(self)@.colors.update(obj@ as int, color),
            final(self)@.roots == old(self)@.roots,
            final(self)@.white_is_black == old(self)@.white_is_black,
            final(self)@.auto == old(self)@.auto,
    {
        let ghost v = self@;
        let c = self.color(obj);
        if c != color {
            if c != GcColor::Unbound {
                self.remove(obj);
            }
            self.add(obj, color);
        } else {
            assert(v.moved_spec(obj, color) == v);
            assert(v.colors.update(obj@ as int, color) =~= v.colors);
        }
    }

    /// Swaps the lists of white and black objects and flips the meaning of
    /// the tags, so that every black object becomes white and every white
    /// one black, without touching any object.
    fn swap_white_and_black(&mut self)
        requires
            old(self).wf(),
        ensures
            final(self).wf(),
            final(self)@ == old(self)@.swapped_spec(),
            final(self)@.colors == old(self)@.colors,
            final(self)@.whites == old(self)@.blacks,
            final(self)@.blacks == old(self)@.whites,
            final(self)@.greys == old(self)@.greys,
            final(self)@.roots == old(self)@.roots,
            final(self)@.white_is_black == !old(self)@.white_is_black,
            final(self)@.auto == old(self)@.auto,
    {
        std::mem::swap(&mut self.blacks, &mut self.whites);
        self.white_is_black = !self.white_is_black;
    }

    /// Turns `obj` grey if it is white; anything else is left as it is,
    /// a handle of a released object or of no slot included.
    fn mark_grey(&mut self, obj: Gc)
        requires
            old(self).wf(),
        ensures
            final(self).wf(),
            final(self)@ == old(self)@.greyed_spec(obj),
            final(self)@.greyed_from(old(self)@),
            final(self)@.colors == if old(self)@.is_white(obj) {
                old(self)@.colors.update(obj@ as int, GcColor::Grey)
            } else {
                old(self)@.colors
            },
    {
        let c = self.color(obj);
        match c {
            GcColor::Unbound => {},
            GcColor::Grey => {},
            GcColor::White => {
                if self.white_is_black {
                } else {
                    self.movec(obj, GcColor::Grey);
                }
            },
            GcColor::Black => {
                if self.white_is_black {
                    self.movec(obj, GcColor::Grey);
                } else {
                }
            },
        }
    }

    /// Whether the number of white objects calls for a marking.
    fn auto_mark(&self) -> (b: bool)
        ensures
            b == (self@.auto && self@.whites.len() >= MAX_WHITES),
    {
        self.auto && self.whites.len() >= MAX_WHITES
    }

    /// Whether the number of white objects calls for a sweep.
    fn auto_sweep(&self) -> (b: bool)
        ensures
            b == (self@.auto && self@.whites.len() >= MAX_WHITES),
    {
        self.auto && self.whites.len() >= MAX_WHITES
    }

    /// Takes the last grey object off its list and leaves it unbound.
    fn take_grey(&mut self) -> (obj: Gc)
        requires
            old(self).wf(),
            old(self)@.greys.len() > 0,
        ensures
            final(self).wf(),
            final(self)@ == old(self)@.unbound_spec(obj),
            obj == old(self)@.greys.last(),
            obj@ < old(self)@.colors.len(),
            old(self)@.colors[obj@ as int] == GcColor::Grey,
            final(self)@.colors == old(self)@.colors.update(obj@ as int, GcColor::Unbound),
            final(self)@.greys == old(self)@.greys.drop_last(),
            final(self)@.whites == old(self)@.whites,
            final(self)@.blacks == old(self)@.blacks,
            final(self)@.roots == old(self)@.roots,
            final(self)@.white_is_black == old(self)@.white_is_black,
            final(self)@.auto == old(self)@.auto,
    {
        let ghost v = self@;
        let obj = self.greys.pop().unwrap();
        proof {
            let k = v.greys.len() - 1;
            lemma_tracks_remove(v.greys, v.colors, GcColor::Grey, k, GcColor::Unbound);
            assert(v.greys.remove(k) =~= v.greys.drop_last());
            lemma_without(v.greys, v.greys[k], k);
        }
        self.colors[obj.index()] = GcColor::Unbound;
        proof {
            lemma_tracks_other_update(v.whites, v.colors, v.white_color(), obj, GcColor::Unbound);
            lemma_tracks_other_update(v.blacks, v.colors, v.black_color(), obj, GcColor::Unbound);
            assert(self@ =~= v.unbound_spec(obj));
        }
        obj
    }

    /// Takes the last white object off its list and leaves it unbound.
    fn take_white(&mut self) -> (obj: Gc)
        requires
            old(self).wf(),
            old(self)@.whites.len() > 0,
        ensures
            final(self).wf(),
            final(self)@ == old(self)@.unbound_spec(obj),
            obj == old(self)@.whites.last(),
            obj@ < old(self)@.colors.len(),
            old(self)@.colors[obj@ as int] == old(self)@.white_color(),
            final(self)@.colors == old(self)@.colors.update(obj@ as int, GcColor::Unbound),
            final(self)@.whites == old(self)@.whites.drop_last(),
            final(self)@.greys == old(self)@.greys,
            final(self)@.blacks == old(self)@.blacks,
            final(self)@.roots == old(self)@.roots,
            final(self)@.white_is_black == old(self)@.white_is_black,
            final(self)@.auto == old(self)@.auto,
    {
        let ghost v = self@;
        let obj = self.whites.pop().unwrap();
        proof {
            let k = v.whites.len() - 1;
            lemma_tracks_remove(v.whites, v.colors, v.white_color(), k, GcColor::Unbound);
            assert(v.whites.remove(k) =~= v.whites.drop_last());
            lemma_without(v.whites, v.whites[k], k);
        }
        self.colors[obj.index()] = GcColor::Unbound;
        proof {
            lemma_tracks_other_update(v.greys, v.colors, GcColor::Grey, obj, GcColor::Unbound);
            lemma_tracks_other_update(v.blacks, v.colors, v.black_color(), obj, GcColor::Unbound);
            assert(self@ =~= v.unbound_spec(obj));
        }
        obj
    }

    /// Takes the last black object off its list and leaves it unbound.
    fn take_black(&mut self) -> (obj: Gc)
        requires
            old(self).wf(),
            old(self)@.blacks.len() > 0,
        ensures
            final(self).wf(),
            final(self)@ == old(self)@.unbound_spec(obj),
            obj == old(self)@.blacks.last(),
            obj@ < old(self)@.colors.len(),
            old(self)@.colors[obj@ as int] == old(self)@.black_color(),
            final(self)@.colors == old(self)@.colors.update(obj@ as int, GcColor::Unbound),
            final(self)@.blacks == old(self)@.blacks.drop_last(),
            final(self)@.greys == old(self)@.greys,
            final(self)@.whites == old(self)@.whites,
            final(self)@.roots == old(self)@.roots,
            final(self)@.white_is_black == old(self)@.white_is_black,
            final(self)@.auto == old(self)@.auto,
    {
        let ghost v = self@;
        let obj = self.blacks.pop().unwrap();
        proof {
            let k = v.blacks.len() - 1;
            lemma_tracks_remove(v.blacks, v.colors, v.black_color(), k, GcColor::Unbound);
            assert(v.blacks.remove(k) =~= v.blacks.drop_last());
            lemma_without(v.blacks, v.blacks[k], k);
        }
        self.colors[obj.index()] = GcColor::Unbound;
        proof {
            lemma_tracks_other_update(v.greys, v.colors, GcColor::Grey, obj, GcColor::Unbound);
            lemma_tracks_other_update(v.whites, v.colors, v.white_color(), obj, GcColor::Unbound);
            assert(self@ =~= v.unbound_spec(obj));
        }
        obj
    }
}

impl Gc {
    /// Turns the object grey if it is white. A `Mark` implementation calls
    /// this on each object that its value refers to. A handle of a released
    /// object, or of no slot, leaves `gc` as it is.
    pub fn mark_grey(&self, gc: &mut InGcEnv)
        requires
            old(gc).wf(),
        ensures
            final(gc).wf(),
            final(gc)@ == old(gc)@.greyed_spec(*self),
            final(gc)@.greyed_from(old(gc)@),
            final(gc)@.colors == if old(gc)@.is_white(*self) {
                old(gc)@.colors.update(self@ as int, GcColor::Grey)
            } else {
                old(gc)@.colors
            },
    {
        gc.mark_grey(*self);
    }
}

/// Which colour list to take an object from.
#[derive(PartialEq, Eq, Structural, Clone, Copy)]
enum ListKind {
    Whites,
    Greys,
    Blacks,
}

/// What a value kept by a collector implements. `mark` marks grey, through
/// `Gc::mark_grey`, each object that the value refers to, and `marked` says
/// what that leaves: for a value that refers to the objects `r1, .., rn` it is
/// `before.greyed_spec(r1) ... .greyed_spec(rn)`. The default `marked` is
/// `before`, which is right only for a value that refers to no object (whose
/// `mark` has an empty body); every implementation whose value refers to
/// objects must define `marked`, and Verus then holds its `mark` to it. An
/// implementation outside verified code is trusted to mark as its `marked`
/// says; where it leaves the default, what the collector states of marking
/// (`marked_steps`, `fully_marked`) does not describe it.
pub trait Mark {
    /// The bookkeeping that marking this value leaves, from the bookkeeping
    /// `before` it.
    open spec fn marked(&self, before: InGcView) -> InGcView {
        before
    }

    fn mark(&self, gc: &mut InGcEnv)
        requires
            old(gc).wf(),
        ensures
            final(gc).wf(),
            final(gc)@.greyed_from(old(gc)@),
            final(gc)@ == self.marked(old(gc)@),
    ;
}

/// A collector: the colour bookkeeping and the slots that hold the values
/// of its objects.
pub struct GcEnv<T> {
    inner: InGcEnv,
    heap: Vec<Option<T>>,
}

impl<T> View for GcEnv<T> {
    type V = GcView<T>;

    closed spec fn view(&self) -> GcView<T> {
        GcView { env: self.inner@, heap: self.heap@ }
    }
}

impl<T> GcEnv<T> {
    pub open spec fn wf(&self) -> bool {
        self@.wf()
    }

    /// The colour of `obj`; `Unbound` once it is released.
    pub fn color(&self, obj: Gc) -> (c: GcColor)
        ensures
            c == self@.env.color(obj),
    {
        self.inner.color(obj)
    }

    /// Whether the tag `Black` currently means white.
    pub fn white_is_black(&self) -> (b: bool)
        ensures
            b == self@.env.white_is_black,
    {
        self.inner.white_is_black
    }

    /// Whether `obj` is on the list of white objects.
    pub fn whites_contains(&self, obj: Gc) -> (b: bool)
        ensures
            b == self@.env.whites.contains(obj),
    {
        list_contains(&self.inner.whites, obj)
    }

    /// Whether `obj` is on the list of grey objects.
    pub fn greys_contains(&self, obj: Gc) -> (b: bool)
        ensures
            b == self@.env.greys.contains(obj),
    {
        list_contains(&self.inner.greys, obj)
    }

    /// Whether `obj` is on the list of black objects.
    pub fn blacks_contains(&self, obj: Gc) -> (b: bool)
        ensures
            b == self@.env.blacks.contains(obj),
    {
        list_contains(&self.inner.blacks, obj)
    }

    /// The number of white objects.
    pub fn whites_len(&self) -> (n: usize)
        ensures
            n == self@.env.whites.len(),
    {
        self.inner.whites.len()
    }

    /// Releases the value held in the slot of `obj`.
    fn forget(&mut self, obj: Gc)
        requires
            obj@ < old(self)@.heap.len(),
        ensures
            final(self)@.env == old(self)@.env,
            final(self)@.heap == old(self)@.heap.update(obj@ as int, None),
    {
        self.heap[obj.index()] = None;
    }
}

impl<T: Mark> GcEnv<T> {
    /// A collector with no object. With `auto`, allocation runs a
    /// collection whenever `MAX_WHITES` objects or more are white.
    pub fn new(auto: bool) -> (gc: Self)
        ensures
            gc.wf(),
            gc@.heap.len() == 0,
            gc@.env.colors.len() == 0,
            gc@.env.whites.len() == 0,
            gc@.env.greys.len() == 0,
            gc@.env.blacks.len() == 0,
            gc@.env.roots.len() == 0,
            !gc@.env.white_is_black,
            gc@.env.auto == auto,
    {
        GcEnv { inner: InGcEnv::new(auto), heap: Vec::new() }
    }

    /// Puts `o` in a new slot as a white object.
    fn allocate(&mut self, o: T) -> (g: Gc)
        requires
            old(self).wf(),
        ensures
            final(self).wf(),
            final(self)@.allocated_from(old(self)@, g, o),
    {
        let ghost v = self@;
        let white = if self.inner.white_is_black {
            GcColor::Black
        } else {
            GcColor::White
        };
        let g = Gc::from_index(self.inner.colors.len());
        self.inner.colors.push(white);
        self.heap.push(Some(o));
        self.inner.whites.push(g);
        proof {
            let e = v.env;
            lemma_tracks_extend_push(e.whites, e.colors, e.white_color(), g);
            lemma_tracks_extend_other(e.greys, e.colors, GcColor::Grey, white);
            lemma_tracks_extend_other(e.blacks, e.colors, e.black_color(), white);
            let n = self@;
            assert forall|i: int| 0 <= i < n.heap.len() implies (n.heap[i] is Some <==> n.env.colors[i]
                != GcColor::Unbound) by {
                if i < v.heap.len() {
                    assert(n.heap[i] == v.heap[i]);
                    assert(n.env.colors[i] == e.colors[i]);
                }
            }
            assert forall|r: Gc| #[trigger] n.env.roots.contains(r) implies n.env.live(r)
                && !n.env.is_white(r) by {
                assert(e.live(r));
                assert(n.env.colors[r@ as int] == e.colors[r@ as int]);
            }
        }
        g
    }

    /// Marks grey what the value of `obj` refers to.
    fn mark_object(&mut self, obj: Gc)
        requires
            old(self)@.env.wf(),
            obj@ < old(self)@.heap.len(),
        ensures
            final(self)@.env.wf(),
            final(self)@.env.greyed_from(old(self)@.env),
            final(self)@.env == match old(self)@.heap[obj@ as int] {
                Some(content) => content.marked(old(self)@.env),
                None => old(self)@.env,
            },
            final(self)@.heap == old(self)@.heap,
    {
        match &self.heap[obj.index()] {
            Some(content) => content.mark(&mut self.inner),
            None => {},
        }
    }

    /// Blackens the unbound object `obj` and marks grey what it refers to.
    fn mark_1(&mut self, obj: Gc)
        requires
            old(self)@.env.wf(),
            old(self)@.heap.len() == old(self)@.env.colors.len(),
            obj@ < old(self)@.env.colors.len(),
            old(self)@.env.colors[obj@ as int] == GcColor::Unbound,
            old(self)@.heap[obj@ as int] is Some,
        ensures
            final(self)@.env.wf(),
            final(self)@.env == old(self)@.content(obj).marked(
                old(self)@.env.colored_spec(obj, old(self)@.env.black_color()),
            ),
            final(self)@.heap == old(self)@.heap,
            final(self)@.env.roots == old(self)@.env.roots,
            final(self)@.env.white_is_black == old(self)@.env.white_is_black,
            final(self)@.env.auto == old(self)@.env.auto,
            final(self)@.env.colors.len() == old(self)@.env.colors.len(),
            final(self)@.env.colors[obj@ as int] == old(self)@.env.black_color(),
            forall|i: int|
                #![trigger final(self)@.env.colors[i]]
                0 <= i < old(self)@.env.colors.len() && i != obj@ ==> final(self)@.env.colors[i]
                    == old(self)@.env.colors[i] || (old(self)@.env.colors[i]
                    == old(self)@.env.white_color() && final(self)@.env.colors[i]
                    == GcColor::Grey),
    {
        let ghost v = self@;
        let black = if self.inner.white_is_black {
            GcColor::White
        } else {
            GcColor::Black
        };
        self.inner.movec(obj, black);
        let ghost m = self@;
        self.mark_object(obj);
        proof {
            let n = self@;
            assert(m.env.colors[obj@ as int] == black);
            assert(n.env.colors[obj@ as int] == m.env.colors[obj@ as int] || m.env.colors[obj@ as int] == m.env.white_color());
            assert forall|i: int| 0 <= i < v.env.colors.len() && i != obj@ implies #[trigger] n.env.colors[i]
                == v.env.colors[i] || (v.env.colors[i] == v.env.white_color() && n.env.colors[i]
                == GcColor::Grey) by {
                assert(m.env.colors[i] == v.env.colors[i]);
                assert(n.env.colors[i] == m.env.colors[i] || (m.env.colors[i] == m.env.white_color() && n.env.colors[i] == GcColor::Grey));
            }
        }
    }

    /// Takes the last grey object, blackens it and marks grey what it refers
    /// to: one step of marking.
    fn mark_next_grey(&mut self)
        requires
            old(self).wf(),
            old(self)@.env.greys.len() > 0,
        ensures
            final(self).wf(),
            final(self)@ == old(self)@.mark_step(),
            final(self)@.heap == old(self)@.heap,
            final(self)@.env.darkened_from(old(self)@.env),
            final(self)@.env.pending() + 1 == old(self)@.env.pending(),
    {
        let ghost v = self@;
        proof {
            assert(v.env.greys.contains(v.env.greys.last()));
        }
        let obj = self.inner.take_grey();
        self.mark_1(obj);
        proof {
            let n = self@;
            assert(n =~= v.mark_step());
            let x = obj@ as int;
            lemma_mark_step_pending(v.env, n.env, x);
            assert forall|i: int| 0 <= i < n.env.colors.len() implies {
                ||| #[trigger] n.env.colors[i] == v.env.colors[i]
                ||| v.env.colors[i] == v.env.white_color() && (n.env.colors[i] == GcColor::Grey
                    || n.env.colors[i] == v.env.black_color())
                ||| v.env.colors[i] == GcColor::Grey && n.env.colors[i] == v.env.black_color()
            } by {
                if i != x {
                    assert(n.env.colors[i] == v.env.colors.update(x, GcColor::Unbound)[i] || (v.env.colors.update(x, GcColor::Unbound)[i] == v.env.white_color() && n.env.colors[i] == GcColor::Grey));
                }
            }
            lemma_darkened_keeps_wf(v, n);
        }
    }

    /// Runs up to `steps` marking steps: each takes a grey object, blackens
    /// it and marks grey what it refers to. Stops early when no object is
    /// grey.
    pub fn mark(&mut self, steps: usize)
        requires
            old(self).wf(),
        ensures
            final(self).wf(),
            final(self)@.marked_from(old(self)@, steps),
    {
        let ghost s0 = self@;
        let mut left = steps;
        while self.inner.greys.len() > 0 && left > 0
            invariant
                self.wf(),
                self@.marked_steps(left as nat) == s0.marked_steps(steps as nat),
                self@.heap == s0.heap,
                self@.env.darkened_from(s0.env),
                left <= steps,
                self@.env.pending() + (steps - left) == s0.env.pending(),
                (steps == 0 || s0.env.greys.len() == 0) ==> self@ == s0,
            decreases left,
        {
            let ghost c = self@;
            self.mark_next_grey();
            proof {
                lemma_darkened_trans(s0.env, c.env, self@.env);
            }
            left = left - 1;
        }
    }

    /// Finishes marking, releases every object that is still white, flips
    /// the meaning of the tags so that the black survivors become white for
    /// the next cycle, and turns the roots grey.
    pub fn sweep(&mut self)
        requires
            old(self).wf(),
        ensures
            final(self).wf(),
            final(self)@.swept_from(old(self)@),
    {
        let ghost s0 = self@;
        let ghost mut done: nat = 0;
        while self.inner.greys.len() > 0
            invariant
                self.wf(),
                self@ == s0.marked_steps(done),
                self@.env.pending() + done == s0.env.pending(),
                self@.heap == s0.heap,
                self@.env.darkened_from(s0.env),
                s0.env.greys.len() == 0 ==> self@ == s0,
            decreases self@.env.pending(),
        {
            let ghost c = self@;
            self.mark_next_grey();
            proof {
                lemma_darkened_trans(s0.env, c.env, self@.env);
                lemma_marked_steps_add(s0, done, 1);
                assert(c.marked_steps(1) == c.mark_step().marked_steps(0));
                done = done + 1;
            }
        }
        let ghost s1 = self@;
        proof {
            lemma_marked_steps_add(s0, done, s1.env.pending());
            assert(s0.env.pending() == done + s1.env.pending());
        }
        while self.inner.whites.len() > 0
            invariant
                s1.wf(),
                self@.env.wf(),
                self@.heap.len() == self@.env.colors.len(),
                self@.env.colors.len() == s1.env.colors.len(),
                self@.env.greys.len() == 0,
                self@.env.blacks == s1.env.blacks,
                self@.env.roots == s1.env.roots,
                self@.env.white_is_black == s1.env.white_is_black,
                self@.env.auto == s1.env.auto,
                forall|i: int|
                    #![trigger self@.env.colors[i]]
                    0 <= i < s1.env.colors.len() ==> self@.env.colors[i] == s1.env.colors[i] || (
                    s1.env.colors[i] == s1.env.white_color() && self@.env.colors[i]
                        == GcColor::Unbound),
                forall|i: int|
                    #![trigger self@.heap[i]]
                    0 <= i < s1.env.colors.len() ==> self@.heap[i] == if self@.env.colors[i]
                        == GcColor::Unbound {
                        None
                    } else {
                        s1.heap[i]
                    },
            decreases self@.env.whites.len(),
        {
            let ghost c = self@;
            let obj = self.inner.take_white();
            self.forget(obj);
            proof {
                let n = self@;
                let x = obj@ as int;
                assert(c.env.colors[x] == s1.env.colors[x]);
                assert forall|i: int| 0 <= i < s1.env.colors.len() implies #[trigger] n.heap[i]
                    == if n.env.colors[i] == GcColor::Unbound {
                    None
                } else {
                    s1.heap[i]
                } by {
                    if i != x {
                        assert(n.heap[i] == c.heap[i]);
                        assert(n.env.colors[i] == c.env.colors[i]);
                    }
                }
            }
        }
        let ghost s2 = self@;
        proof {
            assert forall|g: Gc| s2.env.color(g) != s1.env.white_color() by {
                lemma_tracks_empty(s2.env.whites, s2.env.colors, s2.env.white_color(), g);
            }
        }
        self.inner.swap_white_and_black();
        let ghost s3 = self@;
        proof {
            assert(s3.env.blacks.len() == 0);
        }
        let mut it: Vec<Gc> = Vec::new();
        let mut j: usize = 0;
        while j < self.inner.roots.len()
            invariant
                j <= self.inner.roots@.len(),
                it@ == self.inner.roots@.subrange(0, j as int),
            decreases self.inner.roots@.len() - j,
        {
            it.push(self.inner.roots[j]);
            j = j + 1;
        }
        proof {
            assert(it@ =~= s3.env.roots);
            assert forall|r: Gc| #[trigger] s3.env.roots.contains(r) implies s3.env.live(r) && s3.env.color(r) == s3.env.white_color() by {
                assert(s1.env.live(r) && !s1.env.is_white(r));
                assert(!s1.env.is_grey(r)) by {
                    lemma_tracks_empty(s1.env.greys, s1.env.colors, GcColor::Grey, r);
                }
                assert(s2.env.colors[r@ as int] == s1.env.colors[r@ as int]);
            }
        }
        let mut k: usize = 0;
        while k < it.len()
            invariant
                it@ == s3.env.roots,
                k <= it@.len(),
                s3.env.roots.no_duplicates(),
                forall|r: Gc| #[trigger]
                    s3.env.roots.contains(r) ==> s3.env.color(r) == s3.env.white_color(),
                self@.env.greys == it@.subrange(0, k as int),
                self@.env.blacks.len() == 0,
                self@.env.whites == without_all(s3.env.whites, it@.subrange(0, k as int)),
                self@.env.wf(),
                self@.heap == s3.heap,
                self@.env.roots == s3.env.roots,
                self@.env.white_is_black == s3.env.white_is_black,
                self@.env.auto == s3.env.auto,
                self@.env.colors.len() == s3.env.colors.len(),
                forall|g: Gc|
                    #[trigger] self@.env.color(g) == if it@.subrange(0, k as int).contains(g) {
                        GcColor::Grey
                    } else {
                        s3.env.color(g)
                    },
            decreases it@.len() - k,
        {
            let obj = it[k];
            proof {
                assert(s3.env.roots.contains(obj));
                if it@.subrange(0, k as int).contains(obj) {
                    let j = choose|j: int| 0 <= j < k && it@.subrange(0, k as int)[j] == obj;
                    assert(it@[j] == it@[k as int]);
                }
                assert(self@.env.color(obj) == s3.env.white_color());
            }
            let ghost c = self@;
            self.inner.movec(obj, GcColor::Grey);
            k = k + 1;
            proof {
                let n = self@;
                assert(n.env.greys =~= it@.subrange(0, k as int));
                assert(it@.subrange(0, k as int).drop_last() =~= it@.subrange(0, k - 1));
                assert(it@.subrange(0, k as int) =~= it@.subrange(0, k - 1).push(obj));
                assert forall|g: Gc| #[trigger] n.env.color(g) == if it@.subrange(0, k as int).contains(g) {
                    GcColor::Grey
                } else {
                    s3.env.color(g)
                } by {
                    lemma_push_contains(it@.subrange(0, k - 1), obj, g);
                    lemma_gc_view_injective(g, obj);
                    assert(c.env.color(g) == if it@.subrange(0, k - 1).contains(g) {
                        GcColor::Grey
                    } else {
                        s3.env.color(g)
                    });
                }
            }
        }
        proof {
            let n = self@;
            assert(it@.subrange(0, k as int) =~= it@);
            assert(s3.env.whites == s1.env.blacks);
            assert forall|g: Gc| #[trigger] n.env.color(g) == if s3.env.roots.contains(g) {
                GcColor::Grey
            } else {
                s3.env.color(g)
            } by {
                assert(n.env.color(g) == if it@.subrange(0, k as int).contains(g) {
                    GcColor::Grey
                } else {
                    s3.env.color(g)
                });
            }
            assert(n.heap.len() == self.heap.len());
            lemma_sweep_outcome(s0, s1, s2, s3, n);
        }
    }


    /// Makes the live object `obj` a root, and grey, unless it is a root
    /// already.
    pub fn add_root(&mut self, obj: Gc)
        requires
            old(self).wf(),
            old(self)@.live(obj),
        ensures
            final(self).wf(),
            final(self)@.env.roots.contains(obj),
            old(self)@.env.roots.contains(obj) ==> final(self)@ == old(self)@,
            !old(self)@.env.roots.contains(obj) ==> {
                &&& final(self)@.env.roots == old(self)@.env.roots.push(obj)
                &&& final(self)@.env.colors == old(self)@.env.colors.update(obj@ as int, GcColor::Grey)
                &&& final(self)@.env.whites == old(self)@.env.moved_spec(obj, GcColor::Grey).whites
                &&& final(self)@.env.greys == old(self)@.env.moved_spec(obj, GcColor::Grey).greys
                &&& final(self)@.env.blacks == old(self)@.env.moved_spec(obj, GcColor::Grey).blacks
                &&& final(self)@.heap == old(self)@.heap
                &&& final(self)@.env.white_is_black == old(self)@.env.white_is_black
                &&& final(self)@.env.auto == old(self)@.env.auto
            },
    {
        let ghost v = self@;
        if !list_contains(&self.inner.roots, obj) {
            self.inner.roots.push(obj);
            proof {
                lemma_push_no_duplicates(v.env.roots, obj);
            }
            self.inner.movec(obj, GcColor::Grey);
            proof {
                let n = self@;
                lemma_push_contains(v.env.roots, obj, obj);
                assert forall|r: Gc| #[trigger] n.env.roots.contains(r) implies v.env.roots.contains(r)
                    || r == obj by {
                    lemma_push_contains(v.env.roots, obj, r);
                }
                lemma_greyed_keeps_wf(v, n, obj);
            }
        }
    }

    /// Stops `obj` being a root. Its colour is left as it is.
    pub fn rm_root(&mut self, obj: Gc)
        requires
            old(self).wf(),
        ensures
            final(self).wf(),
            !final(self)@.env.roots.contains(obj),
            !old(self)@.env.roots.contains(obj) ==> final(self)@ == old(self)@,
            old(self)@.env.roots.contains(obj) ==> exists|k: int|
                0 <= k < old(self)@.env.roots.len() && old(self)@.env.roots[k] == obj
                    && #[trigger] old(self)@.env.roots.remove(k) == final(self)@.env.roots,
            final(self)@.env.colors == old(self)@.env.colors,
            final(self)@.env.whites == old(self)@.env.whites,
            final(self)@.env.greys == old(self)@.env.greys,
            final(self)@.env.blacks == old(self)@.env.blacks,
            final(self)@.env.white_is_black == old(self)@.env.white_is_black,
            final(self)@.env.auto == old(self)@.env.auto,
            final(self)@.heap == old(self)@.heap,
    {
        let ghost v = self@;
        if list_contains(&self.inner.roots, obj) {
            let k = take_out(&mut self.inner.roots, obj);
            proof {
                let n = self@;
                lemma_remove_contains(v.env.roots, k as int, obj);
                assert forall|r: Gc| #[trigger] n.env.roots.contains(r) implies n.env.live(r)
                    && !n.env.is_white(r) by {
                    lemma_remove_contains(v.env.roots, k as int, r);
                }
                assert(v.env.roots.remove(k as int) == n.env.roots);
            }
        }
    }

    /// The write barrier: `o` has just been made to refer to `robj`. If `o`
    /// is black and `robj` white, `o` turns grey so that its references are
    /// marked again; otherwise nothing changes.
    pub fn new_ref(&mut self, o: Gc, robj: Gc)
        requires
            old(self).wf(),
            old(self)@.live(o),
            old(self)@.live(robj),
        ensures
            final(self).wf(),
            if old(self)@.env.is_black(o) && old(self)@.env.is_white(robj) {
                &&& final(self)@.env == old(self)@.env.moved_spec(o, GcColor::Grey)
                &&& final(self)@.env.colors == old(self)@.env.colors.update(o@ as int, GcColor::Grey)
                &&& final(self)@.env.roots == old(self)@.env.roots
                &&& final(self)@.env.white_is_black == old(self)@.env.white_is_black
                &&& final(self)@.env.auto == old(self)@.env.auto
                &&& final(self)@.heap == old(self)@.heap
            } else {
                final(self)@ == old(self)@
            },
            !(final(self)@.env.is_black(o) && final(self)@.env.is_white(robj)),
    {
        let ghost v = self@;
        if self.inner.white_is_black {
            if self.inner.color(o) == GcColor::White && self.inner.color(robj) == GcColor::Black {
                self.inner.movec(o, GcColor::Grey);
            }
        } else {
            if self.inner.color(o) == GcColor::Black && self.inner.color(robj) == GcColor::White {
                self.inner.movec(o, GcColor::Grey);
            }
        }
        proof {
            let n = self@;
            if n != v {
                lemma_greyed_keeps_wf(v, n, o);
            }
            if o == robj {
            } else {
                lemma_gc_view_injective(o, robj);
            }
        }
    }

    /// The collection that an automatic collector runs before allocating:
    /// with many white objects, a bounded marking and, if whites are still
    /// many, a sweep.
    fn auto_mark_sweep(&mut self)
        requires
            old(self).wf(),
        ensures
            final(self).wf(),
            final(self)@.auto_collected_from(old(self)@),
            final(self)@.env.roots == old(self)@.env.roots,
    {
        let ghost s0 = self@;
        if self.inner.auto_mark() {
            self.mark(MAX_WHITES);
        }
        let ghost mid = self@;
        if self.inner.auto_sweep() {
            self.sweep();
        }
        proof {
            if s0.wants_collection() {
                assert(mid.marked_from(s0, MAX_WHITES));
            }
        }
    }

    /// Adds `obj` as a new white object and returns its handle. An automatic
    /// collector first runs a collection if many objects are white.
    pub fn new_gc(&mut self, obj: T) -> (g: Gc)
        requires
            old(self).wf(),
        ensures
            final(self).wf(),
            exists|mid: GcView<T>| #[trigger]
                mid.auto_collected_from(old(self)@) && final(self)@.allocated_from(mid, g, obj),
            g@ == old(self)@.env.colors.len(),
            final(self)@.env.roots == old(self)@.env.roots,
            final(self)@.live(g),
            final(self)@.env.is_white(g),
            final(self)@.content(g) == obj,
    {
        self.auto_mark_sweep();
        let ghost mid = self@;
        let g = self.allocate(obj);
        proof {
            assert(mid.auto_collected_from(old(self)@) && self@.allocated_from(mid, g, obj));
            assert(mid.env.colors.len() == old(self)@.env.colors.len());
            assert(self@.env.colors[g@ as int] == self@.env.white_color());
        }
        g
    }

    /// Switches automatic collection off (`b`) or on (`!b`); switching it
    /// on runs the collection that allocation would run.
    pub fn pause(&mut self, b: bool)
        requires
            old(self).wf(),
        ensures
            final(self).wf(),
            final(self)@.env.auto == !b,
            final(self)@.env.roots == old(self)@.env.roots,
            final(self)@.auto_collected_from(old(self)@.with_auto(!b)),
    {
        self.inner.auto = !b;
        proof {
            assert(self@ =~= old(self)@.with_auto(!b));
        }
        self.auto_mark_sweep();
    }

    /// Sweeps, then releases every remaining object and forgets the roots.
    pub fn finalize(&mut self)
        requires
            old(self).wf(),
        ensures
            final(self).wf(),
            forall|g: Gc| !(#[trigger] final(self)@.live(g)),
            forall|i: int| 0 <= i < final(self)@.heap.len() ==> #[trigger] final(self)@.heap[i] is None,
            final(self)@.heap.len() == old(self)@.heap.len(),
            final(self)@.env.roots.len() == 0,
            final(self)@.env.whites.len() == 0,
            final(self)@.env.greys.len() == 0,
            final(self)@.env.blacks.len() == 0,
            final(self)@.env.white_is_black == !old(self)@.env.white_is_black,
            final(self)@.env.auto == old(self)@.env.auto,
    {
        self.sweep();
        let ghost s1 = self@;
        self.inner.roots.clear();
        while self.inner.whites.len() > 0
            invariant
                self.wf(),
                self@.env.roots.len() == 0,
                self@.heap.len() == s1.heap.len(),
                self@.env.white_is_black == s1.env.white_is_black,
                self@.env.auto == s1.env.auto,
            decreases self@.env.whites.len(),
        {
            self.free_next(ListKind::Whites);
        }
        while self.inner.greys.len() > 0
            invariant
                self.wf(),
                self@.env.roots.len() == 0,
                self@.env.whites.len() == 0,
                self@.heap.len() == s1.heap.len(),
                self@.env.white_is_black == s1.env.white_is_black,
                self@.env.auto == s1.env.auto,
            decreases self@.env.greys.len(),
        {
            self.free_next(ListKind::Greys);
        }
        while self.inner.blacks.len() > 0
            invariant
                self.wf(),
                self@.env.roots.len() == 0,
                self@.env.whites.len() == 0,
                self@.env.greys.len() == 0,
                self@.heap.len() == s1.heap.len(),
                self@.env.white_is_black == s1.env.white_is_black,
                self@.env.auto == s1.env.auto,
            decreases self@.env.blacks.len(),
        {
            self.free_next(ListKind::Blacks);
        }
        proof {
            let n = self@;
            assert(n.heap.len() == self.heap.len());
            assert forall|g: Gc| !(#[trigger] n.live(g)) by {
                lemma_tracks_empty(n.env.whites, n.env.colors, n.env.white_color(), g);
                lemma_tracks_empty(n.env.greys, n.env.colors, GcColor::Grey, g);
                lemma_tracks_empty(n.env.blacks, n.env.colors, n.env.black_color(), g);
            }
            assert forall|i: int| 0 <= i < n.heap.len() implies #[trigger] n.heap[i] is None by {
                let g = Gc::from_index_spec(i);
                lemma_from_index_spec(i);
                assert(!n.live(g));
            }
        }
    }

    /// Takes the last object off the given colour list and releases it.
    fn free_next(&mut self, which: ListKind)
        requires
            old(self).wf(),
            old(self)@.env.roots.len() == 0,
            which == ListKind::Whites ==> old(self)@.env.whites.len() > 0,
            which == ListKind::Greys ==> old(self)@.env.greys.len() > 0,
            which == ListKind::Blacks ==> old(self)@.env.blacks.len() > 0,
        ensures
            final(self).wf(),
            final(self)@.env.roots.len() == 0,
            final(self)@.heap.len() == old(self)@.heap.len(),
            final(self)@.env.white_is_black == old(self)@.env.white_is_black,
            final(self)@.env.auto == old(self)@.env.auto,
            which == ListKind::Whites ==> final(self)@.env.whites.len() < old(self)@.env.whites.len(),
            which != ListKind::Whites ==> final(self)@.env.whites == old(self)@.env.whites,
            which == ListKind::Greys ==> final(self)@.env.greys.len() < old(self)@.env.greys.len(),
            which != ListKind::Greys ==> final(self)@.env.greys == old(self)@.env.greys,
            which == ListKind::Blacks ==> final(self)@.env.blacks.len() < old(self)@.env.blacks.len(),
    {
        let ghost v = self@;
        let obj = match which {
            ListKind::Whites => self.inner.take_white(),
            ListKind::Greys => self.inner.take_grey(),
            ListKind::Blacks => self.inner.take_black(),
        };
        self.forget(obj);
        proof {
            let n = self@;
            assert forall|i: int| 0 <= i < n.heap.len() implies (#[trigger] n.heap[i] is Some
                <==> n.env.colors[i] != GcColor::Unbound) by {
                assert(v.heap[i] is Some <==> v.env.colors[i] != GcColor::Unbound);
            }
        }
    }

}

impl Gc {
    /// The value of the live object `self` held by `gc`.
    pub fn borrow<'a, T>(&self, gc: &'a GcEnv<T>) -> (r: &'a T)
        requires
            gc.wf(),
            gc@.live(*self),
        ensures
            *r == gc@.content(*self),
    {
        match &gc.heap[self.index()] {
            Some(content) => content,
            None => vstd::pervasive::unreached(),
        }
    }

    /// The value of the live object `self`, to change in place.
    pub fn borrow_mut<'a, T>(&self, gc: &'a mut GcEnv<T>) -> (r: &'a mut T)
        requires
            old(gc).wf(),
            old(gc)@.live(*self),
        ensures
            *r == old(gc)@.content(*self),
            final(gc).wf(),
            final(gc)@.env == old(gc)@.env,
            final(gc)@.heap == old(gc)@.heap.update(self@ as int, Some(*final(r))),
    {
        match &mut gc.heap[self.index()] {
            Some(content) => content,
            None => vstd::pervasive::unreached(),
        }
    }

    /// The value of `self` if it is live, else `None`.
    pub fn try_borrow<'a, T>(&self, gc: &'a GcEnv<T>) -> (r: Option<&'a T>)
        requires
            gc.wf(),
        ensures
            r is Some <==> gc@.live(*self),
            r is Some ==> *r->Some_0 == gc@.content(*self),
    {
        if self.index() < gc.heap.len() {
            match &gc.heap[self.index()] {
                Some(content) => Some(content),
                None => None,
            }
        } else {
            None
        }
    }
}

/// A handle is a value that refers to the object it names: marking it marks
/// that object grey.
impl Mark for Gc {
    open spec fn marked(&self, before: InGcView) -> InGcView {
        before.greyed_spec(*self)
    }

    fn mark(&self, gc: &mut InGcEnv) {
        self.mark_grey(gc);
    }
}

/// A handle refers to the object it names and marks soundly.
pub proof fn lemma_gc_marks_soundly(g: Gc)
    ensures
        marks_soundly(g),
        marks_only_referents(g),
        refers_to(g, g),
{
    assert forall|b: InGcView| #![trigger g.marked(b)] b.wf() implies g.marked(b).wf()
        && g.marked(b).greyed_from(b) by {
        if b.is_white(g) {
            lemma_unbound_wf(b, g);
            let u = b.unbound_spec(g);
            assert(u.color(g) == GcColor::Unbound);
            lemma_colored_wf(u, g, GcColor::Grey);
            assert(g.marked(b).colors == b.colors.update(g@ as int, GcColor::Grey));
        }
    }
    assert forall|b: InGcView| #![trigger g.marked(b)] b.wf() && b.is_white(g) implies g.marked(
        b,
    ).is_grey(g) by {
        lemma_unbound_wf(b, g);
        let u = b.unbound_spec(g);
        assert(u.color(g) == GcColor::Unbound);
        lemma_colored_wf(u, g, GcColor::Grey);
    }
    assert forall|b: InGcView, x: Gc| #![trigger g.marked(b).is_grey(x)] b.wf() && b.is_white(x)
        && g.marked(b).is_grey(x) implies refers_to(g, x) by {
        lemma_gc_view_injective(x, g);
        if x != g {
            if b.is_white(g) {
                lemma_unbound_wf(b, g);
                let u = b.unbound_spec(g);
                assert(u.color(g) == GcColor::Unbound);
                lemma_colored_wf(u, g, GcColor::Grey);
                assert(g.marked(b).colors[x@ as int] == b.colors[x@ as int]);
            }
        }
    }
}

} // verus!
