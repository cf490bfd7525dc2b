use gc3c::{Gc, GcColor, GcEnv, InGcEnv, Mark, MAX_WHITES};

// Two kinds of values: `A` refers to no object, `B` refers to one.
#[derive(Debug)]
enum Obj {
    A { i: u8 },
    B { a: Gc, i: u8 },
}

impl Mark for Obj {
    // the B value has to mark grey its internal reference
    fn mark(&self, gc: &mut InGcEnv) {
        if let Obj::B { a, i } = self {
            a.mark_grey(gc);
            let _ = i;
        }
    }
}

fn value_of(o: &Obj) -> u8 {
    match o {
        Obj::A { i } => *i,
        Obj::B { i, .. } => *i,
    }
}

fn assert_is_white(gc: &GcEnv<Obj>, o: Gc) {
    let white = if gc.white_is_black() { GcColor::Black } else { GcColor::White };
    assert_eq!(gc.color(o), white);
    assert!(gc.whites_contains(o));
}

fn assert_is_black(gc: &GcEnv<Obj>, o: Gc) {
    let black = if gc.white_is_black() { GcColor::White } else { GcColor::Black };
    assert_eq!(gc.color(o), black);
    assert!(gc.blacks_contains(o));
}

fn assert_is_grey(gc: &GcEnv<Obj>, o: Gc) {
    assert_eq!(gc.color(o), GcColor::Grey);
    assert!(gc.greys_contains(o));
}

fn assert_released(gc: &GcEnv<Obj>, o: Gc) {
    assert!(!gc.whites_contains(o));
    assert!(!gc.blacks_contains(o));
    assert!(!gc.greys_contains(o));
}

#[test]
fn basic_test() {
    // the collector is local, so it is passed where it is needed
    let mut gc = GcEnv::new(false);

    let a = gc.new_gc(Obj::A { i: 1 });

    // b is a copy of the handle, the value is not moved
    let b = a;

    // the value is reached through borrow
    let c = value_of(a.borrow(&gc));

    assert_eq!(1, c);

    // and changed through borrow_mut
    if let Obj::A { i } = a.borrow_mut(&mut gc) {
        *i = 2;
    }

    assert_eq!(2, value_of(b.borrow(&gc)));

    assert_eq!(gc.color(a), GcColor::White);
    gc.finalize();
}

#[test]
fn root_test() {
    let mut gc = GcEnv::new(false);

    let a = gc.new_gc(Obj::A { i: 1 });

    assert_is_white(&gc, a);
    gc.add_root(a);
    assert_is_grey(&gc, a);

    gc.sweep();
    // a is still alive
    assert_is_grey(&gc, a);
    gc.finalize();
}

#[test]
fn mark_test() {
    let mut gc = GcEnv::new(false);

    let a = gc.new_gc(Obj::A { i: 1 });
    let b = gc.new_gc(Obj::B { i: 1, a: a });

    assert_is_white(&gc, b);
    gc.add_root(b);
    assert_is_grey(&gc, b);

    gc.mark(100);
    // all is black
    assert_is_black(&gc, a);
    assert_is_black(&gc, b);
    gc.finalize();
}

#[test]
fn sweep_test() {
    let mut gc = GcEnv::new(false);

    let a = gc.new_gc(Obj::A { i: 1 });
    let b = gc.new_gc(Obj::B { i: 1, a: a });

    assert_is_white(&gc, b);
    gc.add_root(b);
    assert_is_grey(&gc, b);

    gc.sweep();
    // all is alive
    assert_is_white(&gc, a);
    assert_is_grey(&gc, b);
    gc.finalize();
}

#[test]
fn release_test() {
    let mut gc = GcEnv::new(false);

    let a = gc.new_gc(Obj::A { i: 1 });

    assert_is_white(&gc, a);

    gc.mark(100);
    assert_is_white(&gc, a);

    gc.sweep();
    // a is no more in gc
    assert_released(&gc, a);
    gc.finalize();
}

#[test]
fn write_barrier_test() {
    let mut gc = GcEnv::new(false);

    let a = gc.new_gc(Obj::A { i: 1 });
    let b = gc.new_gc(Obj::B { i: 1, a: a });
    let c = gc.new_gc(Obj::A { i: 1 });

    gc.add_root(b);
    gc.mark(100);
    assert_is_black(&gc, a);
    assert_is_black(&gc, b);
    assert_is_white(&gc, c);

    // replace referred object
    if let Obj::B { a: r, .. } = b.borrow_mut(&mut gc) {
        *r = c;
    }
    gc.new_ref(b, c);
    assert_is_grey(&gc, b);
    assert_is_white(&gc, c);
    assert_is_black(&gc, a);
    gc.mark(100);
    gc.sweep();
    assert_is_grey(&gc, b);
    assert_is_white(&gc, c);
    assert_is_white(&gc, a);
    gc.mark(100);
    gc.sweep();
    assert_is_grey(&gc, b);
    assert_is_white(&gc, c);
    assert_released(&gc, a);

    gc.rm_root(b);
    gc.mark(100);
    gc.sweep();
    assert_is_white(&gc, b);
    assert_is_white(&gc, c);
    gc.mark(100);
    gc.sweep();
    assert_released(&gc, b);
    assert_released(&gc, c);

    gc.finalize();
}

// A value whose marking checks the names that the bookkeeping gives colours.
struct Probe;

impl Mark for Probe {
    fn mark(&self, gc: &mut InGcEnv) {
        assert_eq!(gc.col(GcColor::Unbound), "unbound");
        assert_eq!(gc.col(GcColor::Grey), "grey");
    }
}

#[test]
fn auto_collection_test() {
    let mut gc = GcEnv::new(true);
    let first = gc.new_gc(Obj::A { i: 0 });
    for _ in 0..MAX_WHITES {
        gc.new_gc(Obj::A { i: 0 });
    }
    // the last allocation found MAX_WHITES whites and swept them all
    assert_eq!(gc.whites_len(), 1);
    assert_eq!(gc.color(first), GcColor::Unbound);
    assert!(first.try_borrow(&gc).is_none());
    gc.finalize();
    assert_eq!(gc.whites_len(), 0);
}

#[test]
fn auto_collection_keeps_roots_test() {
    let mut gc = GcEnv::new(true);
    let root = gc.new_gc(Obj::A { i: 7 });
    gc.add_root(root);
    for _ in 0..(2 * MAX_WHITES) {
        gc.new_gc(Obj::A { i: 0 });
    }
    assert!(gc.color(root) != GcColor::Unbound);
    assert_eq!(value_of(root.borrow(&gc)), 7);
    gc.finalize();
    assert_eq!(gc.color(root), GcColor::Unbound);
}

#[test]
fn pause_test() {
    let mut gc = GcEnv::new(true);
    gc.pause(true);
    let mut handles = Vec::new();
    for _ in 0..(MAX_WHITES + 50) {
        handles.push(gc.new_gc(Obj::A { i: 3 }));
    }
    // paused: nothing was collected
    assert_eq!(gc.whites_len(), MAX_WHITES + 50);
    // resuming runs the collection that allocation would run
    gc.pause(false);
    assert_eq!(gc.whites_len(), 0);
    for h in handles {
        assert_released(&gc, h);
    }
}

#[test]
fn new_ref_unchanged_test() {
    let mut gc = GcEnv::new(false);
    let a = gc.new_gc(Obj::A { i: 1 });
    let b = gc.new_gc(Obj::A { i: 2 });
    // b is white, not black: the barrier does nothing
    gc.new_ref(b, a);
    assert_is_white(&gc, a);
    assert_is_white(&gc, b);
    // a black object referring to a grey one stays black
    gc.add_root(a);
    gc.add_root(b);
    gc.mark(1);
    assert_is_black(&gc, b);
    assert_is_grey(&gc, a);
    gc.new_ref(b, a);
    assert_is_black(&gc, b);
    gc.finalize();
}

#[test]
fn rm_root_test() {
    let mut gc = GcEnv::new(false);
    let a = gc.new_gc(Obj::A { i: 1 });
    // not a root: nothing changes
    gc.rm_root(a);
    assert_is_white(&gc, a);
    gc.add_root(a);
    gc.add_root(a);
    gc.rm_root(a);
    // its colour is left as it is
    assert_is_grey(&gc, a);
    gc.sweep();
    // it was grey, so it survives this sweep, but no longer as a root
    assert_is_white(&gc, a);
    gc.sweep();
    assert_released(&gc, a);
}

#[test]
fn mark_steps_test() {
    let mut gc = GcEnv::new(false);
    let a = gc.new_gc(Obj::A { i: 1 });
    let b = gc.new_gc(Obj::B { a, i: 2 });
    let c = gc.new_gc(Obj::B { a: b, i: 3 });
    gc.add_root(c);
    // no steps: nothing happens
    gc.mark(0);
    assert_is_grey(&gc, c);
    // two steps blacken c and b; a is grey
    gc.mark(2);
    assert_is_black(&gc, c);
    assert_is_black(&gc, b);
    assert_is_grey(&gc, a);
    gc.mark(1);
    assert_is_black(&gc, a);
    // marking never changes a value
    assert_eq!(value_of(a.borrow(&gc)), 1);
    assert_eq!(value_of(b.borrow(&gc)), 2);
    assert_eq!(value_of(c.borrow(&gc)), 3);
    gc.finalize();
}

#[test]
fn enough_steps_finish_marking_test() {
    let mut gc = GcEnv::new(false);
    let a = gc.new_gc(Obj::A { i: 1 });
    let b = gc.new_gc(Obj::B { a, i: 2 });
    let c = gc.new_gc(Obj::B { a: b, i: 3 });
    gc.add_root(c);
    // three live objects are not black: three steps finish marking
    gc.mark(3);
    assert!(!gc.greys_contains(a) && !gc.greys_contains(b) && !gc.greys_contains(c));
    assert_is_black(&gc, a);
    gc.finalize();
}

#[test]
fn sweep_flips_tags_test() {
    let mut gc = GcEnv::new(false);
    assert!(!gc.white_is_black());
    let a = gc.new_gc(Obj::A { i: 1 });
    gc.add_root(a);
    gc.mark(10);
    assert_eq!(gc.color(a), GcColor::Black);
    gc.sweep();
    assert!(gc.white_is_black());
    assert_is_grey(&gc, a);
    let b = gc.new_gc(Obj::A { i: 2 });
    // after the flip a new white object carries the tag Black
    assert_eq!(gc.color(b), GcColor::Black);
    assert_is_white(&gc, b);
    gc.finalize();
    assert!(!gc.white_is_black());
}

#[test]
fn finalize_releases_everything_test() {
    let mut gc = GcEnv::new(false);
    let a = gc.new_gc(Obj::A { i: 1 });
    let b = gc.new_gc(Obj::B { a, i: 2 });
    gc.add_root(b);
    gc.mark(1);
    gc.finalize();
    assert_released(&gc, a);
    assert_released(&gc, b);
    assert_eq!(gc.color(a), GcColor::Unbound);
    assert!(b.try_borrow(&gc).is_none());
}

#[test]
fn try_borrow_test() {
    let mut gc = GcEnv::new(false);
    let a = gc.new_gc(Obj::A { i: 9 });
    assert_eq!(a.try_borrow(&gc).map(value_of), Some(9));
    gc.sweep();
    assert!(a.try_borrow(&gc).is_none());
}

#[test]
fn color_names_test() {
    let mut gc: GcEnv<Probe> = GcEnv::new(false);
    let p = gc.new_gc(Probe);
    gc.add_root(p);
    // marking p runs the checks of Probe::mark
    gc.mark(1);
    gc.finalize();
}

#[test]
fn mark_grey_released_handle_test() {
    let mut gc = GcEnv::new(false);
    let a = gc.new_gc(Obj::A { i: 1 });
    gc.sweep();
    assert_released(&gc, a);
    // a value still referring to the released a: marking it leaves a released
    let b = gc.new_gc(Obj::B { a, i: 2 });
    gc.add_root(b);
    gc.mark(10);
    assert_is_black(&gc, b);
    assert_eq!(gc.color(a), GcColor::Unbound);
    gc.finalize();
}

#[test]
fn handle_values_test() {
    // handles are values too: each refers to the object it names
    let mut other: GcEnv<Obj> = GcEnv::new(false);
    let first_slot = other.new_gc(Obj::A { i: 0 });
    let mut gc: GcEnv<Gc> = GcEnv::new(false);
    // the first object of gc sits in slot 0, so it refers to itself
    let a = gc.new_gc(first_slot);
    let b = gc.new_gc(a);
    let c = gc.new_gc(a);
    gc.add_root(b);
    gc.sweep();
    // b is a root, a is reached from it, c is reached from nothing
    assert_eq!(gc.color(b), GcColor::Grey);
    assert_eq!(gc.color(a), if gc.white_is_black() { GcColor::Black } else { GcColor::White });
    assert_eq!(gc.color(c), GcColor::Unbound);
    assert_eq!(*b.borrow(&gc), a);
    gc.finalize();
}

#[test]
fn sweep_white_order_test() {
    let mut gc = GcEnv::new(false);
    let a = gc.new_gc(Obj::A { i: 1 });
    let b = gc.new_gc(Obj::A { i: 2 });
    let c = gc.new_gc(Obj::A { i: 3 });
    gc.add_root(a);
    gc.add_root(b);
    gc.add_root(c);
    gc.mark(3);
    gc.rm_root(a);
    gc.rm_root(c);
    gc.sweep();
    // a and c survive as white, b is the only grey root
    assert_is_white(&gc, a);
    assert_is_white(&gc, c);
    assert_is_grey(&gc, b);
    assert_eq!(gc.whites_len(), 2);
    gc.finalize();
}
