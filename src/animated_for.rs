//! The keyed reconciliation engine behind an animated list.
//!
//! Each item is named by a `u64` key and carried as a `u64` item handle. The
//! engine keeps the alive items (those of the latest collection, in its order)
//! and the leaving items (removed, still animating out, in removal order), and
//! the set of keys whose element has been mounted. A reconciliation cycle takes
//! the new collection and the "before" snapshots of the mounted elements and
//! returns the leave animations to start; a deferred pass, once the new
//! elements are mounted, returns the enter animations to start and the elements
//! to measure again for move animations.
use vstd::prelude::*;
use std::collections::HashMap;
use std::collections::HashSet;
use crate::keyed_map::{
    entries_of, inserted, keys_of, map_contains_key, map_get, map_get_index, map_insert, map_len,
    map_new, map_shift_remove, shift_removed, unique_keys, value_of, KeyedMap,
};
use crate::position::{stayed, ElementSnapshot, Extent};
use crate::css::{px, px_text};
use crate::animation_defs::{frame_view, frames_view, Keyframe};
use vstd::string::StringExecFns;

verus! {

broadcast use vstd::std_specs::hash::group_hash_axioms;

/// Entries of `s` that satisfy `p`, in order.
pub open spec fn filter_entries(s: Seq<(u64, u64)>, p: spec_fn((u64, u64)) -> bool) -> Seq<
    (u64, u64),
>
    decreases s.len(),
{
    if s.len() == 0 {
        s
    } else {
        let rest = filter_entries(s.drop_last(), p);
        if p(s.last()) {
            rest.push(s.last())
        } else {
            rest
        }
    }
}

/// Entries of `s` whose key is not among `ks`.
pub open spec fn without_keys(s: Seq<(u64, u64)>, ks: Seq<u64>) -> Seq<(u64, u64)> {
    filter_entries(s, |e: (u64, u64)| !ks.contains(e.0))
}

/// Entries of `s` whose key has no snapshot in `snaps`.
pub open spec fn unmeasured(s: Seq<(u64, u64)>, snaps: Map<u64, ElementSnapshot>) -> Seq<(u64, u64)> {
    filter_entries(s, |e: (u64, u64)| !snaps.contains_key(e.0))
}

/// The ordered map built by inserting each `(key, item)` pair in turn: a
/// repeated key keeps its first place and its last item.
pub open spec fn collected(items: Seq<(u64, u64)>) -> Seq<(u64, u64)>
    decreases items.len(),
{
    if items.len() == 0 {
        Seq::empty()
    } else {
        inserted(collected(items.drop_last()), items.last().0, items.last().1)
    }
}

proof fn lemma_filter_keys(s: Seq<(u64, u64)>, p: spec_fn((u64, u64)) -> bool)
    ensures
        forall|k: u64| #[trigger]
            keys_of(filter_entries(s, p)).contains(k) ==> keys_of(s).contains(k),
        forall|i: int|
            0 <= i < filter_entries(s, p).len() ==> p(#[trigger] filter_entries(s, p)[i]),
        unique_keys(s) ==> unique_keys(filter_entries(s, p)),
    decreases s.len(),
{
    if s.len() > 0 {
        let rest = filter_entries(s.drop_last(), p);
        lemma_filter_keys(s.drop_last(), p);
        assert forall|k: u64| #[trigger]
            keys_of(filter_entries(s, p)).contains(k) implies keys_of(s).contains(k) by {
            let f = filter_entries(s, p);
            let j = choose|j: int| 0 <= j < keys_of(f).len() && keys_of(f)[j] == k;
            if j < rest.len() {
                assert(keys_of(rest)[j] == k);
                assert(keys_of(rest).contains(k));
                let m = choose|m: int|
                    0 <= m < keys_of(s.drop_last()).len() && keys_of(s.drop_last())[m] == k;
                assert(keys_of(s)[m] == k);
            } else {
                assert(keys_of(s)[s.len() - 1] == k);
            }
        }
        if unique_keys(s) {
            assert(unique_keys(s.drop_last())) by {
                assert forall|i: int, j: int|
                    0 <= i < j < s.drop_last().len() implies #[trigger] s.drop_last()[i].0
                    != #[trigger] s.drop_last()[j].0 by {
                    assert(s[i].0 != s[j].0);
                }
            }
            if p(s.last()) {
                assert forall|i: int, j: int|
                    0 <= i < j < filter_entries(s, p).len() implies #[trigger] filter_entries(
                    s,
                    p,
                )[i].0 != #[trigger] filter_entries(s, p)[j].0 by {
                    if j == rest.len() {
                        if rest[i].0 == s.last().0 {
                            assert(keys_of(rest)[i] == s.last().0);
                            assert(keys_of(rest).contains(s.last().0));
                            assert(keys_of(s.drop_last()).contains(s.last().0));
                            let m = choose|m: int|
                                0 <= m < keys_of(s.drop_last()).len() && keys_of(s.drop_last())[m]
                                    == s.last().0;
                            assert(s[m].0 == s[s.len() - 1].0);
                        }
                    }
                }
            }
        }
    }
}

proof fn lemma_shift_removed(s: Seq<(u64, u64)>, k: u64)
    requires
        unique_keys(s),
    ensures
        unique_keys(shift_removed(s, k)),
        !keys_of(shift_removed(s, k)).contains(k),
        forall|x: u64| #[trigger]
            keys_of(shift_removed(s, k)).contains(x) ==> keys_of(s).contains(x),
{
    let r = shift_removed(s, k);
    if keys_of(s).contains(k) {
        let i = keys_of(s).index_of(k);
        assert(keys_of(s)[i] == k);
        assert forall|a: int, b: int| 0 <= a < b < r.len() implies #[trigger] r[a].0
            != #[trigger] r[b].0 by {
            let a2 = if a < i { a } else { a + 1 };
            let b2 = if b < i { b } else { b + 1 };
            assert(r[a] == s[a2]);
            assert(r[b] == s[b2]);
        }
        if keys_of(r).contains(k) {
            let j = choose|j: int| 0 <= j < keys_of(r).len() && keys_of(r)[j] == k;
            let j2 = if j < i { j } else { j + 1 };
            assert(s[j2].0 == k);
            if j2 < i {
                assert(s[j2].0 != s[i].0);
            } else {
                assert(s[i].0 != s[j2].0);
            }
        }
        assert forall|x: u64| #[trigger] keys_of(r).contains(x) implies keys_of(s).contains(x) by {
            let j = choose|j: int| 0 <= j < keys_of(r).len() && keys_of(r)[j] == x;
            let j2 = if j < i { j } else { j + 1 };
            assert(keys_of(s)[j2] == x);
        }
    }
}

/// The keys of `s` hold no repeat and none of them is in `other`.
pub open spec fn disjoint_keys(s: Seq<(u64, u64)>, other: Seq<(u64, u64)>) -> bool {
    forall|k: u64| #[trigger] keys_of(s).contains(k) ==> !keys_of(other).contains(k)
}

proof fn lemma_inserted(s: Seq<(u64, u64)>, k: u64, v: u64)
    requires
        unique_keys(s),
    ensures
        unique_keys(inserted(s, k, v)),
        forall|x: u64| #[trigger]
            keys_of(inserted(s, k, v)).contains(x) <==> (keys_of(s).contains(x) || x == k),
        !keys_of(s).contains(k) ==> inserted(s, k, v) == s.push((k, v)),
{
    let r = inserted(s, k, v);
    if keys_of(s).contains(k) {
        let i = keys_of(s).index_of(k);
        assert(keys_of(r) =~= keys_of(s));
        assert forall|a: int, b: int| 0 <= a < b < r.len() implies #[trigger] r[a].0
            != #[trigger] r[b].0 by {
            assert(r[a].0 == s[a].0);
            assert(r[b].0 == s[b].0);
        }
    } else {
        assert(keys_of(r) =~= keys_of(s).push(k));
        assert forall|x: u64| #[trigger] keys_of(r).contains(x) <==> (keys_of(s).contains(x) || x
            == k) by {
            if x == k {
                assert(keys_of(r)[s.len() as int] == k);
            } else if keys_of(s).contains(x) {
                let j = choose|j: int| 0 <= j < keys_of(s).len() && keys_of(s)[j] == x;
                assert(keys_of(r)[j] == x);
            } else if keys_of(r).contains(x) {
                let j = choose|j: int| 0 <= j < keys_of(r).len() && keys_of(r)[j] == x;
                assert(keys_of(s)[j] == x);
            }
        }
        assert forall|a: int, b: int| 0 <= a < b < r.len() implies #[trigger] r[a].0
            != #[trigger] r[b].0 by {
            if b == s.len() {
                assert(keys_of(s)[a] == s[a].0);
            }
        }
    }
}

proof fn lemma_collected(items: Seq<(u64, u64)>)
    ensures
        unique_keys(collected(items)),
    decreases items.len(),
{
    if items.len() > 0 {
        lemma_collected(items.drop_last());
        lemma_inserted(collected(items.drop_last()), items.last().0, items.last().1);
    }
}

proof fn lemma_keys_concat(a: Seq<(u64, u64)>, b: Seq<(u64, u64)>)
    ensures
        keys_of(a + b) == keys_of(a) + keys_of(b),
        forall|x: u64| #[trigger]
            keys_of(a + b).contains(x) <==> (keys_of(a).contains(x) || keys_of(b).contains(x)),
{
    assert(keys_of(a + b) =~= keys_of(a) + keys_of(b));
    assert forall|x: u64| #[trigger] keys_of(a + b).contains(x) implies (keys_of(a).contains(x)
        || keys_of(b).contains(x)) by {
        let j = choose|j: int| 0 <= j < keys_of(a + b).len() && keys_of(a + b)[j] == x;
        if j < a.len() {
            assert(keys_of(a)[j] == x);
        } else {
            assert(keys_of(b)[j - a.len()] == x);
        }
    }
    assert forall|x: u64| (keys_of(a).contains(x) || keys_of(b).contains(x)) implies #[trigger] keys_of(
        a + b,
    ).contains(x) by {
        if keys_of(a).contains(x) {
            let j = choose|j: int| 0 <= j < keys_of(a).len() && keys_of(a)[j] == x;
            assert(keys_of(a + b)[j] == x);
        } else {
            let j = choose|j: int| 0 <= j < keys_of(b).len() && keys_of(b)[j] == x;
            assert(keys_of(a + b)[j + a.len()] == x);
        }
    }
}

/// A key of `without_keys(s, ks)` is a key of `s` and not one of `ks`.
proof fn lemma_without_keys(s: Seq<(u64, u64)>, ks: Seq<u64>)
    ensures
        forall|x: u64| #[trigger]
            keys_of(without_keys(s, ks)).contains(x) ==> keys_of(s).contains(x) && !ks.contains(x),
        unique_keys(s) ==> unique_keys(without_keys(s, ks)),
{
    let p = |e: (u64, u64)| !ks.contains(e.0);
    lemma_filter_keys(s, p);
    let w = without_keys(s, ks);
    assert forall|x: u64| #[trigger] keys_of(w).contains(x) implies keys_of(s).contains(x)
        && !ks.contains(x) by {
        let j = choose|j: int| 0 <= j < keys_of(w).len() && keys_of(w)[j] == x;
        assert(p(w[j]));
    }
}

proof fn lemma_prefix_key_absent(s: Seq<(u64, u64)>, i: int)
    requires
        unique_keys(s),
        0 <= i < s.len(),
    ensures
        !keys_of(s.subrange(0, i)).contains(s[i].0),
{
    if keys_of(s.subrange(0, i)).contains(s[i].0) {
        let j = choose|j: int| 0 <= j < i && keys_of(s.subrange(0, i))[j] == s[i].0;
        assert(s[j].0 != s[i].0);
    }
}

/// A leave animation to start: the element of `key`, last measured at
/// `snapshot`, is pinned there and animated out.
#[derive(Clone, Copy, Debug)]
pub struct LeaveStep {
    pub key: u64,
    pub item: u64,
    pub snapshot: ElementSnapshot,
}

/// The leave animations for the departed entries `s`: one for each entry whose
/// element was measured before the change, in order.
pub open spec fn leave_steps(s: Seq<(u64, u64)>, snaps: Map<u64, ElementSnapshot>) -> Seq<LeaveStep>
    decreases s.len(),
{
    if s.len() == 0 {
        Seq::empty()
    } else {
        let rest = leave_steps(s.drop_last(), snaps);
        let e = s.last();
        if snaps.contains_key(e.0) {
            rest.push(LeaveStep { key: e.0, item: e.1, snapshot: snaps[e.0] })
        } else {
            rest
        }
    }
}

/// What one reconciliation cycle asks of the caller.
pub struct CyclePlan {
    /// Leave animations to start now, in the order the items were alive.
    pub leaves: Vec<LeaveStep>,
    /// Keys that started leaving with no element measured before the change
    /// (never mounted, detached, or not measurable): they have no leave
    /// animation, so nothing but the caller ends their leave.
    pub unanimated: Vec<u64>,
    /// Whether to run the deferred enter/move pass once the new elements are
    /// mounted.
    pub deferred: bool,
}

/// Builds the ordered map of a collection: a repeated key keeps its first
/// place and takes its last item.
fn collect_items(items: &Vec<(u64, u64)>) -> (r: KeyedMap)
    ensures
        entries_of(r) == collected(items@),
{
    let mut m = map_new();
    let mut i: usize = 0;
    while i < items.len()
        invariant
            i <= items.len(),
            entries_of(m) == collected(items@.subrange(0, i as int)),
        decreases items.len() - i,
    {
        let (k, v) = items[i];
        map_insert(&mut m, k, v);
        assert(items@.subrange(0, i + 1).drop_last() =~= items@.subrange(0, i as int));
        i = i + 1;
    }
    assert(items@.subrange(0, items.len() as int) =~= items@);
    m
}

/// The leaving entries of `leaving` whose key is not among `ks`, in order.
fn leaving_kept(leaving: &KeyedMap, nm: &KeyedMap) -> (r: KeyedMap)
    requires
        unique_keys(entries_of(*leaving)),
    ensures
        entries_of(r) == without_keys(entries_of(*leaving), keys_of(entries_of(*nm))),
        unique_keys(entries_of(r)),
{
    let ghost l = entries_of(*leaving);
    let ghost ks = keys_of(entries_of(*nm));
    let mut r = map_new();
    let n = map_len(leaving);
    let mut j: usize = 0;
    while j < n
        invariant
            n == l.len(),
            j <= n,
            l == entries_of(*leaving),
            ks == keys_of(entries_of(*nm)),
            unique_keys(l),
            entries_of(r) == without_keys(l.subrange(0, j as int), ks),
            unique_keys(entries_of(r)),
        decreases n - j,
    {
        let (k, v) = map_get_index(leaving, j).unwrap();
        proof {
            assert(l.subrange(0, j + 1).drop_last() =~= l.subrange(0, j as int));
            assert(l.subrange(0, j + 1).last() == l[j as int]);
        }
        if !map_contains_key(nm, k) {
            proof {
                lemma_prefix_key_absent(l, j as int);
                lemma_without_keys(l.subrange(0, j as int), ks);
                lemma_inserted(entries_of(r), k, v);
            }
            map_insert(&mut r, k, v);
        }
        j = j + 1;
    }
    assert(l.subrange(0, n as int) =~= l);
    r
}

/// A step of the deferred pass over the mounted alive items.
#[derive(Clone, Copy, Debug)]
pub enum DeferredStep {
    /// The element was not measured before the change: it is new and its
    /// enter animation starts.
    Enter { key: u64, item: u64 },
    /// The element was measured at `before`: measure it again and start a move
    /// animation unless it stayed in place.
    Measure { key: u64, before: ElementSnapshot },
}

/// The deferred steps for the alive entries `s`: one for each mounted key, in
/// order.
pub open spec fn deferred_of(
    s: Seq<(u64, u64)>,
    mounted: Set<u64>,
    snaps: Map<u64, ElementSnapshot>,
) -> Seq<DeferredStep>
    decreases s.len(),
{
    if s.len() == 0 {
        Seq::empty()
    } else {
        let rest = deferred_of(s.drop_last(), mounted, snaps);
        let e = s.last();
        if !mounted.contains(e.0) {
            rest
        } else if snaps.contains_key(e.0) {
            rest.push(DeferredStep::Measure { key: e.0, before: snaps[e.0] })
        } else {
            rest.push(DeferredStep::Enter { key: e.0, item: e.1 })
        }
    }
}

/// The size properties of a move keyframe: width and height where sizes are
/// animated and the snapshot recorded them.
pub open spec fn size_props(e: Option<Extent>, animate_size: bool) -> Seq<(Seq<char>, Seq<char>)> {
    match e {
        Some(x) if animate_size => seq![
            ("width"@, px_text(x.width as int)),
            ("height"@, px_text(x.height as int)),
        ],
        _ => Seq::empty(),
    }
}

/// The CSS translation by `(dx, dy)` hundredths of a pixel.
pub open spec fn translate_text(dx: int, dy: int) -> Seq<char> {
    "translate("@ + px_text(dx) + ", "@ + px_text(dy) + ")"@
}

/// The two keyframes of a move from `prev` to `next`: the element starts
/// translated back to where it was and ends untranslated, from the top left
/// corner, with the recorded sizes where sizes are animated.
pub open spec fn move_frames(prev: ElementSnapshot, next: ElementSnapshot, animate_size: bool) -> Seq<
    Seq<(Seq<char>, Seq<char>)>,
> {
    seq![
        seq![
            ("transformOrigin"@, "top left"@),
            (
                "transform"@,
                translate_text(
                    prev.position.x - next.position.x,
                    prev.position.y - next.position.y,
                ),
            ),
        ] + size_props(prev.extent, animate_size),
        seq![("transformOrigin"@, "top left"@), ("transform"@, "none"@)] + size_props(
            next.extent,
            animate_size,
        ),
    ]
}

fn push_size_props(props: &mut Vec<(String, String)>, e: Option<Extent>, animate_size: bool)
    ensures
        final(props)@.map_values(|p: (String, String)| (p.0@, p.1@)) == old(props)@.map_values(
            |p: (String, String)| (p.0@, p.1@),
        ) + size_props(e, animate_size),
{
    let ghost start = props@;
    if animate_size {
        if let Some(x) = e {
            props.push((String::from_str("width"), px(x.width as i128)));
            props.push((String::from_str("height"), px(x.height as i128)));
        }
    }
    assert(props@.map_values(|p: (String, String)| (p.0@, p.1@)) =~= start.map_values(
        |p: (String, String)| (p.0@, p.1@),
    ) + size_props(e, animate_size));
}

/// The keyframes of the move animation of an element measured at `prev`
/// before the change and at `next` after it. Sizes are animated only when both
/// snapshots recorded them.
pub fn move_keyframes(prev: ElementSnapshot, next: ElementSnapshot, animate_size: bool) -> (r: Vec<Keyframe>)
    requires
        animate_size ==> prev.extent is Some && next.extent is Some,
    ensures
        frames_view(r@) == move_frames(prev, next, animate_size),
{
    let dx: i128 = prev.position.x as i128 - next.position.x as i128;
    let dy: i128 = prev.position.y as i128 - next.position.y as i128;
    let mut t = String::from_str("translate(");
    let xs = px(dx);
    t.append(xs.as_str());
    t.append(", ");
    let ys = px(dy);
    t.append(ys.as_str());
    t.append(")");
    let mut first: Vec<(String, String)> = Vec::new();
    first.push((String::from_str("transformOrigin"), String::from_str("top left")));
    first.push((String::from_str("transform"), t));
    push_size_props(&mut first, prev.extent, animate_size);
    let mut second: Vec<(String, String)> = Vec::new();
    second.push((String::from_str("transformOrigin"), String::from_str("top left")));
    second.push((String::from_str("transform"), String::from_str("none")));
    push_size_props(&mut second, next.extent, animate_size);
    let k1 = Keyframe { props: first };
    let k2 = Keyframe { props: second };
    proof {
        assert(frame_view(k1) =~= move_frames(prev, next, animate_size)[0]);
        assert(frame_view(k2) =~= move_frames(prev, next, animate_size)[1]);
    }
    let mut r: Vec<Keyframe> = Vec::new();
    r.push(k1);
    r.push(k2);
    assert(frames_view(r@) =~= move_frames(prev, next, animate_size));
    r
}

/// The inline styles that pin a leaving element where it was measured, so
/// that the layout flow does not move it during its leave animation.
pub open spec fn pin_props(s: ElementSnapshot) -> Seq<(Seq<char>, Seq<char>)> {
    seq![
        ("position"@, "absolute"@),
        ("top"@, px_text(s.position.y as int)),
        ("left"@, px_text(s.position.x as int)),
    ] + size_props(s.extent, true)
}

/// The inline styles that pin a leaving element at its snapshot.
pub fn pin_styles(snapshot: ElementSnapshot) -> (r: Vec<(String, String)>)
    ensures
        r@.map_values(|p: (String, String)| (p.0@, p.1@)) == pin_props(snapshot),
{
    let mut r: Vec<(String, String)> = Vec::new();
    r.push((String::from_str("position"), String::from_str("absolute")));
    r.push((String::from_str("top"), px(snapshot.position.y as i128)));
    r.push((String::from_str("left"), px(snapshot.position.x as i128)));
    let ghost start = r@;
    assert(start.map_values(|p: (String, String)| (p.0@, p.1@)) =~= seq![
        ("position"@, "absolute"@),
        ("top"@, px_text(snapshot.position.y as int)),
        ("left"@, px_text(snapshot.position.x as int)),
    ]);
    push_size_props(&mut r, snapshot.extent, true);
    r
}

/// Tracks the alive and leaving items of one animated list.
pub struct Reconciler {
    alive: KeyedMap,
    leaving: KeyedMap,
    mounted: HashSet<u64>,
    appear: bool,
    animate_size: bool,
    started: bool,
}

impl Reconciler {
    /// Alive entries, in the order of the latest collection.
    pub closed spec fn alive_entries(&self) -> Seq<(u64, u64)> {
        entries_of(self.alive)
    }

    /// Leaving entries, in removal order.
    pub closed spec fn leaving_entries(&self) -> Seq<(u64, u64)> {
        entries_of(self.leaving)
    }

    /// Keys whose element is mounted and has not left.
    pub closed spec fn mounted_keys(&self) -> Set<u64> {
        self.mounted@
    }

    /// Whether enter animations play on the first cycle.
    pub closed spec fn appears(&self) -> bool {
        self.appear
    }

    /// Whether move animations also animate the size.
    pub closed spec fn sizes(&self) -> bool {
        self.animate_size
    }

    /// Whether a cycle has already run.
    pub closed spec fn has_started(&self) -> bool {
        self.started
    }

    /// Keys in rendering order: alive keys, then leaving keys.
    pub open spec fn rendered(&self) -> Seq<u64> {
        keys_of(self.alive_entries()) + keys_of(self.leaving_entries())
    }

    /// The engine's invariant: keys are unique within each set, no key is both
    /// alive and leaving, and only alive keys are mounted.
    pub open spec fn wf(&self) -> bool {
        &&& unique_keys(self.alive_entries())
        &&& unique_keys(self.leaving_entries())
        &&& disjoint_keys(self.alive_entries(), self.leaving_entries())
        &&& forall|k: u64| #[trigger]
            self.mounted_keys().contains(k) ==> keys_of(self.alive_entries()).contains(k)
    }

    /// An engine with no items. `appear` makes the first cycle play enter
    /// animations; `animate_size` makes move animations also animate sizes.
    pub fn new(appear: bool, animate_size: bool) -> (r: Reconciler)
        ensures
            r.wf(),
            r.alive_entries() == Seq::<(u64, u64)>::empty(),
            r.leaving_entries() == Seq::<(u64, u64)>::empty(),
            r.mounted_keys() == Set::<u64>::empty(),
            r.appears() == appear,
            r.sizes() == animate_size,
            !r.has_started(),
    {
        Reconciler {
            alive: map_new(),
            leaving: map_new(),
            mounted: HashSet::new(),
            appear,
            animate_size,
            started: false,
        }
    }

    /// Whether move animations also animate the size.
    pub fn animate_size(&self) -> (r: bool)
        ensures
            r == self.sizes(),
    {
        self.animate_size
    }

    /// The keys to render, alive keys first in collection order, then leaving
    /// keys in removal order. No key occurs twice.
    pub fn render_keys(&self) -> (r: Vec<u64>)
        requires
            self.wf(),
        ensures
            r@ == self.rendered(),
            r@.no_duplicates(),
    {
        let mut r: Vec<u64> = Vec::new();
        let n = map_len(&self.alive);
        let mut i: usize = 0;
        while i < n
            invariant
                n == self.alive_entries().len(),
                i <= n,
                r@ == keys_of(self.alive_entries()).subrange(0, i as int),
            decreases n - i,
        {
            let (k, _) = map_get_index(&self.alive, i).unwrap();
            r.push(k);
            i = i + 1;
            assert(r@ =~= keys_of(self.alive_entries()).subrange(0, i as int));
        }
        let m = map_len(&self.leaving);
        let mut j: usize = 0;
        while j < m
            invariant
                n == self.alive_entries().len(),
                m == self.leaving_entries().len(),
                j <= m,
                r@ == keys_of(self.alive_entries()) + keys_of(self.leaving_entries()).subrange(
                    0,
                    j as int,
                ),
            decreases m - j,
        {
            let (k, _) = map_get_index(&self.leaving, j).unwrap();
            r.push(k);
            j = j + 1;
            assert(r@ =~= keys_of(self.alive_entries()) + keys_of(
                self.leaving_entries(),
            ).subrange(0, j as int));
        }
        assert(keys_of(self.leaving_entries()).subrange(0, m as int) =~= keys_of(
            self.leaving_entries(),
        ));
        proof {
            self.lemma_rendered_unique();
        }
        r
    }

    /// The item handle of `key`, looked up among the alive items, then among
    /// the leaving ones.
    pub fn item(&self, key: u64) -> (r: Option<u64>)
        ensures
            r == (match value_of(self.alive_entries(), key) {
                Some(v) => Some(v),
                None => value_of(self.leaving_entries(), key),
            }),
    {
        match map_get(&self.alive, key) {
            Some(v) => Some(v),
            None => map_get(&self.leaving, key),
        }
    }

    /// Whether `key` is among the leaving items.
    pub fn is_leaving(&self, key: u64) -> (r: bool)
        ensures
            r == keys_of(self.leaving_entries()).contains(key),
    {
        map_contains_key(&self.leaving, key)
    }

    /// Records that the element of `key` is mounted. Only an alive key can be
    /// mounted: for any other key nothing changes and `false` is returned.
    pub fn register(&mut self, key: u64) -> (r: bool)
        requires
            old(self).wf(),
        ensures
            final(self).wf(),
            r == keys_of(old(self).alive_entries()).contains(key),
            final(self).mounted_keys() == (if r {
                old(self).mounted_keys().insert(key)
            } else {
                old(self).mounted_keys()
            }),
            final(self).alive_entries() == old(self).alive_entries(),
            final(self).leaving_entries() == old(self).leaving_entries(),
            final(self).appears() == old(self).appears(),
            final(self).sizes() == old(self).sizes(),
            final(self).has_started() == old(self).has_started(),
    {
        if map_contains_key(&self.alive, key) {
            self.mounted.insert(key);
            assert forall|k: u64| #[trigger] self.mounted_keys().contains(k) implies keys_of(
                self.alive_entries(),
            ).contains(k) by {
                if k != key {
                    assert(old(self).mounted_keys().contains(k));
                }
            }
            true
        } else {
            false
        }
    }

    /// The leave animation of `key` has finished: the key stops being rendered.
    pub fn finish_leave(&mut self, key: u64)
        requires
            old(self).wf(),
        ensures
            final(self).wf(),
            final(self).leaving_entries() == shift_removed(old(self).leaving_entries(), key),
            !keys_of(final(self).leaving_entries()).contains(key),
            final(self).alive_entries() == old(self).alive_entries(),
            final(self).mounted_keys() == old(self).mounted_keys(),
            final(self).appears() == old(self).appears(),
            final(self).sizes() == old(self).sizes(),
            final(self).has_started() == old(self).has_started(),
    {
        let ghost before = self.leaving_entries();
        map_shift_remove(&mut self.leaving, key);
        proof {
            lemma_shift_removed(before, key);
            assert forall|k: u64| #[trigger] keys_of(self.alive_entries()).contains(k) implies !keys_of(
                self.leaving_entries(),
            ).contains(k) by {
                assert(!keys_of(before).contains(k));
            }
            assert(self.mounted_keys() == old(self).mounted_keys());
        }
    }

    /// One reconciliation cycle in an interactive context. `new_items` is the
    /// new collection as `(key, item)` pairs; `before` holds the snapshots of
    /// the mounted elements still attached to the document, taken before any
    /// change of this cycle.
    ///
    /// Leaving items whose key comes back stop leaving and will enter as new
    /// items. The alive items become the new collection. Each alive item whose
    /// key is gone stops being mounted and joins the leaving items, after the
    /// items already leaving; a leave animation is returned for it where its
    /// element was measured, and its key is listed as unanimated where not.
    pub fn update(&mut self, new_items: &Vec<(u64, u64)>, before: &HashMap<u64, ElementSnapshot>) -> (r: CyclePlan)
        requires
            old(self).wf(),
        ensures
            stepped(*old(self), *final(self), new_items@),
            r.leaves@ == leave_steps(departed(*old(self), new_items@), before@),
            r.unanimated@ == keys_of(unmeasured(departed(*old(self), new_items@), before@)),
            r.deferred == (old(self).has_started() || old(self).appears()),
    {
        let nm = collect_items(new_items);
        let ghost ks = keys_of(entries_of(nm));
        proof {
            lemma_collected(new_items@);
        }
        let mut nl = leaving_kept(&self.leaving, &nm);
        let ghost kept = entries_of(nl);
        let ghost a = old(self).alive_entries();
        proof {
            lemma_without_keys(old(self).leaving_entries(), ks);
        }
        let mut leaves: Vec<LeaveStep> = Vec::new();
        let mut unanimated: Vec<u64> = Vec::new();
        let n = map_len(&self.alive);
        let mut i: usize = 0;
        while i < n
            invariant
                i <= n,
                n == a.len(),
                a == old(self).alive_entries(),
                self.alive == old(self).alive,
                self.leaving == old(self).leaving,
                self.appear == old(self).appear,
                self.animate_size == old(self).animate_size,
                self.started == old(self).started,
                old(self).wf(),
                ks == keys_of(entries_of(nm)),
                kept == without_keys(old(self).leaving_entries(), ks),
                forall|x: u64| #[trigger] keys_of(kept).contains(x) ==> keys_of(
                    old(self).leaving_entries(),
                ).contains(x) && !ks.contains(x),
                entries_of(nl) == kept + without_keys(a.subrange(0, i as int), ks),
                unique_keys(entries_of(nl)),
                leaves@ == leave_steps(without_keys(a.subrange(0, i as int), ks), before@),
                unanimated@ == keys_of(unmeasured(without_keys(a.subrange(0, i as int), ks), before@)),
                forall|x: u64| #[trigger]
                    self.mounted@.contains(x) <==> (old(self).mounted@.contains(x) && !(keys_of(
                        a.subrange(0, i as int),
                    ).contains(x) && !ks.contains(x))),
            decreases n - i,
        {
            let (k, v) = map_get_index(&self.alive, i).unwrap();
            let ghost w = without_keys(a.subrange(0, i as int), ks);
            let ghost m0 = self.mounted@;
            proof {
                assert(a.subrange(0, i + 1).drop_last() =~= a.subrange(0, i as int));
                assert(a.subrange(0, i + 1).last() == a[i as int]);
                assert(keys_of(a.subrange(0, i + 1)) =~= keys_of(a.subrange(0, i as int)).push(k));
            }
            if !map_contains_key(&nm, k) {
                self.mounted.remove(&k);
                assert(without_keys(a.subrange(0, i + 1), ks) == w.push((k, v)));
                proof {
                    assert(w.push((k, v)).drop_last() =~= w);
                    lemma_keys_concat(kept, w);
                    assert(keys_of(a)[i as int] == k);
                    assert(keys_of(old(self).alive_entries()).contains(k));
                    assert(!keys_of(old(self).leaving_entries()).contains(k));
                    lemma_prefix_key_absent(a, i as int);
                    lemma_without_keys(a.subrange(0, i as int), ks);
                    lemma_inserted(entries_of(nl), k, v);
                    assert(kept + w.push((k, v)) =~= (kept + w).push((k, v)));
                }
                map_insert(&mut nl, k, v);
                match before.get(&k) {
                    Some(snap) => {
                        leaves.push(LeaveStep { key: k, item: v, snapshot: *snap });
                        proof {
                            assert(leave_steps(w.push((k, v)), before@) == leave_steps(w, before@).push(
                                LeaveStep { key: k, item: v, snapshot: before@[k] },
                            ));
                            assert(unmeasured(w.push((k, v)), before@) == unmeasured(w, before@));
                        }
                    },
                    None => {
                        unanimated.push(k);
                        proof {
                            assert(leave_steps(w.push((k, v)), before@) == leave_steps(w, before@));
                            assert(unmeasured(w.push((k, v)), before@) == unmeasured(w, before@).push((k, v)));
                            assert(keys_of(unmeasured(w, before@).push((k, v))) =~= keys_of(unmeasured(w, before@)).push(k));
                        }
                    },
                }
            } else {
                assert(without_keys(a.subrange(0, i + 1), ks) == w);
            }
            proof {
                let done_keys = keys_of(a.subrange(0, i as int));
                let next_keys = keys_of(a.subrange(0, i + 1));
                assert forall|x: u64| #[trigger] next_keys.contains(x) <==> (done_keys.contains(x) || x == k) by {
                    if x == k {
                        assert(next_keys[i as int] == k);
                    } else if done_keys.contains(x) {
                        let j = choose|j: int| 0 <= j < done_keys.len() && done_keys[j] == x;
                        assert(next_keys[j] == x);
                    } else if next_keys.contains(x) {
                        let j = choose|j: int| 0 <= j < next_keys.len() && next_keys[j] == x;
                        assert(done_keys[j] == x);
                    }
                }
                assert forall|x: u64| #[trigger]
                    self.mounted@.contains(x) <==> (old(self).mounted@.contains(x) && !(next_keys.contains(
                        x,
                    ) && !ks.contains(x))) by {
                    assert(m0.contains(x) <==> (old(self).mounted@.contains(x) && !(done_keys.contains(x)
                        && !ks.contains(x))));
                }
            }
            i = i + 1;
        }
        proof {
            assert(a.subrange(0, n as int) =~= a);
            lemma_keys_concat(kept, without_keys(a, ks));
            lemma_without_keys(a, ks);
        }
        self.alive = nm;
        self.leaving = nl;
        let deferred = self.started || self.appear;
        self.started = true;
        proof {
            assert forall|x: u64| #[trigger] self.mounted_keys().contains(x) implies keys_of(
                self.alive_entries(),
            ).contains(x) by {
                assert(old(self).mounted_keys().contains(x));
                assert(keys_of(a).contains(x));
            }
        }
        CyclePlan { leaves, unanimated, deferred }
    }

    /// One reconciliation cycle where nothing is animated (a server render, or
    /// hydration): the alive items become the new collection, returning keys
    /// stop leaving, and no element counts as mounted any more.
    pub fn update_static(&mut self, new_items: &Vec<(u64, u64)>)
        requires
            old(self).wf(),
        ensures
            final(self).wf(),
            final(self).alive_entries() == collected(new_items@),
            final(self).leaving_entries() == without_keys(
                old(self).leaving_entries(),
                keys_of(collected(new_items@)),
            ),
            final(self).mounted_keys() == Set::<u64>::empty(),
            final(self).has_started(),
            final(self).appears() == old(self).appears(),
            final(self).sizes() == old(self).sizes(),
    {
        let nm = collect_items(new_items);
        proof {
            lemma_collected(new_items@);
            lemma_without_keys(old(self).leaving_entries(), keys_of(entries_of(nm)));
        }
        let nl = leaving_kept(&self.leaving, &nm);
        self.alive = nm;
        self.leaving = nl;
        self.mounted = HashSet::new();
        self.started = true;
    }

    /// The keys whose element is to be measured before a cycle: the mounted
    /// keys, in alive order.
    pub fn mounted_in_order(&self) -> (r: Vec<u64>)
        requires
            self.wf(),
        ensures
            r@ == keys_of(filter_entries(self.alive_entries(), |e: (u64, u64)| self.mounted_keys().contains(e.0))),
    {
        let ghost a = self.alive_entries();
        let ghost p = |e: (u64, u64)| self.mounted_keys().contains(e.0);
        let mut r: Vec<u64> = Vec::new();
        let n = map_len(&self.alive);
        let mut i: usize = 0;
        while i < n
            invariant
                i <= n,
                n == a.len(),
                a == self.alive_entries(),
                p == (|e: (u64, u64)| self.mounted_keys().contains(e.0)),
                r@ == keys_of(filter_entries(a.subrange(0, i as int), p)),
            decreases n - i,
        {
            let (k, v) = map_get_index(&self.alive, i).unwrap();
            proof {
                assert(a.subrange(0, i + 1).drop_last() =~= a.subrange(0, i as int));
                assert(a.subrange(0, i + 1).last() == a[i as int]);
            }
            if self.mounted.contains(&k) {
                r.push(k);
                assert(r@ =~= keys_of(filter_entries(a.subrange(0, i + 1), p)));
            }
            i = i + 1;
        }
        assert(a.subrange(0, n as int) =~= a);
        r
    }

    /// The deferred pass of a cycle whose "before" snapshots were `before`,
    /// run once the new elements are mounted: for each mounted alive key, in
    /// order, an enter animation where the element was not measured before,
    /// else a measurement to compare against the earlier snapshot.
    pub fn deferred_steps(&self, before: &HashMap<u64, ElementSnapshot>) -> (r: Vec<DeferredStep>)
        requires
            self.wf(),
        ensures
            r@ == deferred_of(self.alive_entries(), self.mounted_keys(), before@),
    {
        let ghost a = self.alive_entries();
        let mut r: Vec<DeferredStep> = Vec::new();
        let n = map_len(&self.alive);
        let mut i: usize = 0;
        while i < n
            invariant
                i <= n,
                n == a.len(),
                a == self.alive_entries(),
                r@ == deferred_of(a.subrange(0, i as int), self.mounted_keys(), before@),
            decreases n - i,
        {
            let (k, v) = map_get_index(&self.alive, i).unwrap();
            proof {
                assert(a.subrange(0, i + 1).drop_last() =~= a.subrange(0, i as int));
                assert(a.subrange(0, i + 1).last() == a[i as int]);
            }
            if self.mounted.contains(&k) {
                match before.get(&k) {
                    Some(snap) => r.push(DeferredStep::Measure { key: k, before: *snap }),
                    None => r.push(DeferredStep::Enter { key: k, item: v }),
                }
            }
            i = i + 1;
        }
        assert(a.subrange(0, n as int) =~= a);
        r
    }

    /// Whatever sequence of cycles led to a well-formed state, the rendered
    /// keys are exactly the alive keys followed by the leaving keys, and no
    /// key is rendered twice.
    pub proof fn lemma_rendered_unique(&self)
        requires
            self.wf(),
        ensures
            self.rendered().no_duplicates(),
    {
        let a = keys_of(self.alive_entries());
        let l = keys_of(self.leaving_entries());
        let r = self.rendered();
        assert forall|i: int, j: int| 0 <= i < r.len() && 0 <= j < r.len() && i != j implies r[i]
            != r[j] by {
            if i < a.len() && j < a.len() {
                assert(self.alive_entries()[i].0 != self.alive_entries()[j].0 || i == j);
                if i < j {
                    assert(self.alive_entries()[i].0 != self.alive_entries()[j].0);
                } else {
                    assert(self.alive_entries()[j].0 != self.alive_entries()[i].0);
                }
            } else if i >= a.len() && j >= a.len() {
                let i2 = i - a.len();
                let j2 = j - a.len();
                if i2 < j2 {
                    assert(self.leaving_entries()[i2].0 != self.leaving_entries()[j2].0);
                } else {
                    assert(self.leaving_entries()[j2].0 != self.leaving_entries()[i2].0);
                }
            } else if i < a.len() {
                assert(a.contains(r[i]));
                assert(l[j - a.len()] == r[j]);
                assert(l.contains(r[j]));
            } else {
                assert(a.contains(r[j]));
                assert(l[i - a.len()] == r[i]);
                assert(l.contains(r[i]));
            }
        }
    }
}

proof fn lemma_without_all(s: Seq<(u64, u64)>, ks: Seq<u64>)
    requires
        forall|i: int| 0 <= i < s.len() ==> ks.contains(#[trigger] s[i].0),
    ensures
        without_keys(s, ks) == Seq::<(u64, u64)>::empty(),
    decreases s.len(),
{
    if s.len() > 0 {
        lemma_without_all(s.drop_last(), ks);
        assert(ks.contains(s[s.len() - 1].0));
    }
}

proof fn lemma_without_none(s: Seq<(u64, u64)>, ks: Seq<u64>)
    requires
        forall|i: int| 0 <= i < s.len() ==> !ks.contains(#[trigger] s[i].0),
    ensures
        without_keys(s, ks) == s,
    decreases s.len(),
{
    if s.len() > 0 {
        lemma_without_none(s.drop_last(), ks);
        assert(!ks.contains(s[s.len() - 1].0));
        assert(s.drop_last().push(s.last()) =~= s);
    }
}

proof fn lemma_deferred_all_measured(
    s: Seq<(u64, u64)>,
    mounted: Set<u64>,
    snaps: Map<u64, ElementSnapshot>,
)
    requires
        forall|k: u64| #[trigger] mounted.contains(k) ==> snaps.contains_key(k),
    ensures
        forall|j: int|
            0 <= j < deferred_of(s, mounted, snaps).len() ==> (match #[trigger] deferred_of(
                s,
                mounted,
                snaps,
            )[j] {
                DeferredStep::Measure { key, before } => before == snaps[key],
                DeferredStep::Enter { .. } => false,
            }),
    decreases s.len(),
{
    if s.len() > 0 {
        lemma_deferred_all_measured(s.drop_last(), mounted, snaps);
    }
}

proof fn lemma_leave_step_keys(s: Seq<(u64, u64)>, snaps: Map<u64, ElementSnapshot>)
    ensures
        forall|j: int|
            0 <= j < leave_steps(s, snaps).len() ==> keys_of(s).contains(
                #[trigger] leave_steps(s, snaps)[j].key,
            ),
    decreases s.len(),
{
    if s.len() > 0 {
        lemma_leave_step_keys(s.drop_last(), snaps);
        let r = leave_steps(s, snaps);
        assert forall|j: int| 0 <= j < r.len() implies keys_of(s).contains(#[trigger] r[j].key) by {
            if j < leave_steps(s.drop_last(), snaps).len() {
                let x = r[j].key;
                assert(keys_of(s.drop_last()).contains(x));
                let m = choose|m: int|
                    0 <= m < keys_of(s.drop_last()).len() && keys_of(s.drop_last())[m] == x;
                assert(keys_of(s)[m] == x);
            } else {
                assert(keys_of(s)[s.len() - 1] == r[j].key);
            }
        }
    }
}

/// The alive entries of `e` whose key is not in the collection `items`, in
/// alive order: the items a cycle with `items` removes.
pub open spec fn departed(e: Reconciler, items: Seq<(u64, u64)>) -> Seq<(u64, u64)> {
    without_keys(e.alive_entries(), keys_of(collected(items)))
}

/// `e1` is the state after a reconciliation cycle with the collection `items`
/// from the state `e0`: the alive items are the collection; the leaving items
/// are those of `e0` whose key did not come back, followed by the removed
/// items in alive order; only mounted keys that stay alive stay mounted.
pub open spec fn stepped(e0: Reconciler, e1: Reconciler, items: Seq<(u64, u64)>) -> bool {
    &&& e1.wf()
    &&& e1.alive_entries() == collected(items)
    &&& e1.leaving_entries() == without_keys(e0.leaving_entries(), keys_of(collected(items)))
        + departed(e0, items)
    &&& forall|k: u64| #[trigger]
        e1.mounted_keys().contains(k) <==> (e0.mounted_keys().contains(k) && keys_of(
            collected(items),
        ).contains(k))
    &&& e1.has_started()
    &&& e1.appears() == e0.appears()
    &&& e1.sizes() == e0.sizes()
}

proof fn lemma_filter_has(s: Seq<(u64, u64)>, p: spec_fn((u64, u64)) -> bool, i: int)
    requires
        0 <= i < s.len(),
        p(s[i]),
    ensures
        filter_entries(s, p).contains(s[i]),
    decreases s.len(),
{
    if i < s.len() - 1 {
        lemma_filter_has(s.drop_last(), p, i);
        let r = filter_entries(s.drop_last(), p);
        let j = choose|j: int| 0 <= j < r.len() && r[j] == s[i];
        if p(s.last()) {
            assert(filter_entries(s, p)[j] == s[i]);
        }
    } else {
        let r = filter_entries(s.drop_last(), p);
        assert(filter_entries(s, p)[r.len() as int] == s[i]);
    }
}

proof fn lemma_leave_has(s: Seq<(u64, u64)>, snaps: Map<u64, ElementSnapshot>, i: int)
    requires
        0 <= i < s.len(),
        snaps.contains_key(s[i].0),
    ensures
        leave_steps(s, snaps).contains(
            LeaveStep { key: s[i].0, item: s[i].1, snapshot: snaps[s[i].0] },
        ),
    decreases s.len(),
{
    let want = LeaveStep { key: s[i].0, item: s[i].1, snapshot: snaps[s[i].0] };
    let r = leave_steps(s.drop_last(), snaps);
    if i < s.len() - 1 {
        lemma_leave_has(s.drop_last(), snaps, i);
        let j = choose|j: int| 0 <= j < r.len() && r[j] == want;
        if snaps.contains_key(s.last().0) {
            assert(leave_steps(s, snaps)[j] == want);
        }
    } else {
        assert(leave_steps(s, snaps)[r.len() as int] == want);
    }
}

/// The key a deferred step is about.
pub open spec fn step_key(d: DeferredStep) -> u64 {
    match d {
        DeferredStep::Enter { key, .. } => key,
        DeferredStep::Measure { key, .. } => key,
    }
}

/// The deferred step that a mounted alive entry `e` gets.
pub open spec fn deferred_step_of(e: (u64, u64), snaps: Map<u64, ElementSnapshot>) -> DeferredStep {
    if snaps.contains_key(e.0) {
        DeferredStep::Measure { key: e.0, before: snaps[e.0] }
    } else {
        DeferredStep::Enter { key: e.0, item: e.1 }
    }
}

proof fn lemma_deferred_has(s: Seq<(u64, u64)>, mounted: Set<u64>, snaps: Map<u64, ElementSnapshot>, i: int)
    requires
        0 <= i < s.len(),
        mounted.contains(s[i].0),
    ensures
        deferred_of(s, mounted, snaps).contains(deferred_step_of(s[i], snaps)),
    decreases s.len(),
{
    let want = deferred_step_of(s[i], snaps);
    let r = deferred_of(s.drop_last(), mounted, snaps);
    if i < s.len() - 1 {
        lemma_deferred_has(s.drop_last(), mounted, snaps, i);
        let j = choose|j: int| 0 <= j < r.len() && r[j] == want;
        if mounted.contains(s.last().0) {
            assert(deferred_of(s, mounted, snaps)[j] == want);
        }
    } else {
        assert(deferred_of(s, mounted, snaps)[r.len() as int] == want);
    }
}

proof fn lemma_deferred_keys(s: Seq<(u64, u64)>, mounted: Set<u64>, snaps: Map<u64, ElementSnapshot>)
    ensures
        forall|j: int|
            0 <= j < deferred_of(s, mounted, snaps).len() ==> keys_of(s).contains(
                step_key(#[trigger] deferred_of(s, mounted, snaps)[j]),
            ),
    decreases s.len(),
{
    if s.len() > 0 {
        lemma_deferred_keys(s.drop_last(), mounted, snaps);
        let r = deferred_of(s, mounted, snaps);
        let rest = deferred_of(s.drop_last(), mounted, snaps);
        assert forall|j: int| 0 <= j < r.len() implies keys_of(s).contains(step_key(#[trigger] r[j])) by {
            if j < rest.len() {
                let x = step_key(r[j]);
                assert(keys_of(s.drop_last()).contains(x));
                let m = choose|m: int|
                    0 <= m < keys_of(s.drop_last()).len() && keys_of(s.drop_last())[m] == x;
                assert(keys_of(s)[m] == x);
            } else {
                assert(keys_of(s)[s.len() - 1] == step_key(r[j]));
            }
        }
    }
}

/// Re-applying the collection that is already alive is quiet: no item is
/// removed, so no leave animation starts and no item starts or stops
/// leaving, and, when every mounted element was measured, the deferred pass
/// starts no enter animation and measures each element against its own
/// earlier snapshot, so an element that did not move starts no move either.
pub proof fn lemma_same_collection_is_quiet(
    e0: Reconciler,
    e1: Reconciler,
    items: Seq<(u64, u64)>,
    before: Map<u64, ElementSnapshot>,
)
    requires
        e0.wf(),
        collected(items) == e0.alive_entries(),
        stepped(e0, e1, items),
    ensures
        departed(e0, items) == Seq::<(u64, u64)>::empty(),
        leave_steps(departed(e0, items), before) == Seq::<LeaveStep>::empty(),
        e1.alive_entries() == e0.alive_entries(),
        e1.leaving_entries() == e0.leaving_entries(),
        e1.mounted_keys() == e0.mounted_keys(),
        (forall|k: u64| #[trigger] e1.mounted_keys().contains(k) ==> before.contains_key(k))
            ==> forall|j: int|
            0 <= j < deferred_of(e1.alive_entries(), e1.mounted_keys(), before).len() ==> (
            match #[trigger] deferred_of(e1.alive_entries(), e1.mounted_keys(), before)[j] {
                DeferredStep::Measure { key, before: b } => b == before[key] && stayed(b, b),
                DeferredStep::Enter { .. } => false,
            }),
{
    let a = e0.alive_entries();
    let ks = keys_of(collected(items));
    assert forall|i: int| 0 <= i < a.len() implies ks.contains(#[trigger] a[i].0) by {
        assert(ks[i] == a[i].0);
    }
    lemma_without_all(a, ks);
    let l = e0.leaving_entries();
    assert forall|i: int| 0 <= i < l.len() implies !ks.contains(#[trigger] l[i].0) by {
        assert(keys_of(l)[i] == l[i].0);
        assert(keys_of(l).contains(l[i].0));
    }
    lemma_without_none(l, ks);
    assert(l + Seq::<(u64, u64)>::empty() =~= l);
    assert forall|k: u64| e1.mounted_keys().contains(k) <==> e0.mounted_keys().contains(k) by {
        if e0.mounted_keys().contains(k) {
            assert(keys_of(a).contains(k));
        }
    }
    assert(e1.mounted_keys() =~= e0.mounted_keys());
    if forall|k: u64| #[trigger] e1.mounted_keys().contains(k) ==> before.contains_key(k) {
        lemma_deferred_all_measured(a, e1.mounted_keys(), before);
    }
}

/// A key that was not alive and is in the new collection is a new item: it is
/// not mounted, so no snapshot of the mounted elements holds it, and once its
/// element is mounted the deferred pass starts its enter animation.
pub proof fn lemma_new_key_enters(e0: Reconciler, e1: Reconciler, items: Seq<(u64, u64)>, i: int)
    requires
        e0.wf(),
        stepped(e0, e1, items),
        0 <= i < collected(items).len(),
        !keys_of(e0.alive_entries()).contains(collected(items)[i].0),
    ensures
        !e0.mounted_keys().contains(collected(items)[i].0),
        !e1.mounted_keys().contains(collected(items)[i].0),
        forall|mounted: Set<u64>, snaps: Map<u64, ElementSnapshot>|
            mounted.contains(collected(items)[i].0) && !snaps.contains_key(collected(items)[i].0)
                ==> #[trigger] deferred_of(e1.alive_entries(), mounted, snaps).contains(
                DeferredStep::Enter { key: collected(items)[i].0, item: collected(items)[i].1 },
            ),
{
    let c = collected(items);
    assert forall|mounted: Set<u64>, snaps: Map<u64, ElementSnapshot>|
        mounted.contains(c[i].0) && !snaps.contains_key(c[i].0) implies #[trigger] deferred_of(
        e1.alive_entries(),
        mounted,
        snaps,
    ).contains(DeferredStep::Enter { key: c[i].0, item: c[i].1 }) by {
        lemma_deferred_has(c, mounted, snaps, i);
    }
}

/// A leaving key that comes back in the new collection is a new item: it is
/// alive again, no longer leaving, and not mounted, so the element that was
/// animating out is not reused, and once its new element is mounted the
/// deferred pass starts its enter animation.
pub proof fn lemma_returning_key_is_new(e0: Reconciler, e1: Reconciler, items: Seq<(u64, u64)>, i: int)
    requires
        e0.wf(),
        stepped(e0, e1, items),
        0 <= i < collected(items).len(),
        keys_of(e0.leaving_entries()).contains(collected(items)[i].0),
    ensures
        keys_of(e1.alive_entries()).contains(collected(items)[i].0),
        !keys_of(e1.leaving_entries()).contains(collected(items)[i].0),
        !e1.mounted_keys().contains(collected(items)[i].0),
        forall|mounted: Set<u64>, snaps: Map<u64, ElementSnapshot>|
            mounted.contains(collected(items)[i].0) && !snaps.contains_key(collected(items)[i].0)
                ==> #[trigger] deferred_of(e1.alive_entries(), mounted, snaps).contains(
                DeferredStep::Enter { key: collected(items)[i].0, item: collected(items)[i].1 },
            ),
{
    let c = collected(items);
    let k = c[i].0;
    let ks = keys_of(c);
    assert(ks[i] == k);
    assert(keys_of(e1.alive_entries())[i] == k);
    lemma_without_keys(e0.leaving_entries(), ks);
    lemma_without_keys(e0.alive_entries(), ks);
    lemma_keys_concat(without_keys(e0.leaving_entries(), ks), departed(e0, items));
    lemma_new_key_enters(e0, e1, items, i);
}

/// An alive key removed by a cycle joins the leaving items whether or not its
/// element was measured: with a snapshot its leave animation starts from that
/// snapshot; without one (never mounted, detached, or not measurable) it gets
/// no leave animation and is listed as unanimated instead.
pub proof fn lemma_removed_key_leaves(
    e0: Reconciler,
    e1: Reconciler,
    items: Seq<(u64, u64)>,
    before: Map<u64, ElementSnapshot>,
    i: int,
)
    requires
        e0.wf(),
        stepped(e0, e1, items),
        0 <= i < e0.alive_entries().len(),
        !keys_of(collected(items)).contains(e0.alive_entries()[i].0),
    ensures
        keys_of(e1.leaving_entries()).contains(e0.alive_entries()[i].0),
        !keys_of(e1.alive_entries()).contains(e0.alive_entries()[i].0),
        before.contains_key(e0.alive_entries()[i].0) ==> leave_steps(departed(e0, items), before).contains(
            LeaveStep {
                key: e0.alive_entries()[i].0,
                item: e0.alive_entries()[i].1,
                snapshot: before[e0.alive_entries()[i].0],
            },
        ),
        !before.contains_key(e0.alive_entries()[i].0) ==> keys_of(
            unmeasured(departed(e0, items), before),
        ).contains(e0.alive_entries()[i].0),
        !before.contains_key(e0.alive_entries()[i].0) ==> forall|j: int|
            0 <= j < leave_steps(departed(e0, items), before).len() ==> #[trigger] leave_steps(
                departed(e0, items),
                before,
            )[j].key != e0.alive_entries()[i].0,
{
    let a = e0.alive_entries();
    let e = a[i];
    let ks = keys_of(collected(items));
    let d = departed(e0, items);
    lemma_filter_has(a, |x: (u64, u64)| !ks.contains(x.0), i);
    let j = choose|j: int| 0 <= j < d.len() && d[j] == e;
    assert(keys_of(d)[j] == e.0);
    lemma_keys_concat(without_keys(e0.leaving_entries(), ks), d);
    if before.contains_key(e.0) {
        lemma_leave_has(d, before, j);
    } else {
        lemma_filter_has(d, |x: (u64, u64)| !before.contains_key(x.0), j);
        let u = unmeasured(d, before);
        let m = choose|m: int| 0 <= m < u.len() && u[m] == e;
        assert(keys_of(u)[m] == e.0);
        lemma_leave_steps_measured(d, before);
    }
}

/// A kept key stays mounted, starts no leave animation, and, where its element
/// was measured before the change, the deferred pass measures it again
/// against that snapshot to decide on a move.
pub proof fn lemma_kept_key_is_measured(
    e0: Reconciler,
    e1: Reconciler,
    items: Seq<(u64, u64)>,
    before: Map<u64, ElementSnapshot>,
    i: int,
)
    requires
        e0.wf(),
        stepped(e0, e1, items),
        0 <= i < collected(items).len(),
        e0.mounted_keys().contains(collected(items)[i].0),
    ensures
        e1.mounted_keys().contains(collected(items)[i].0),
        forall|j: int|
            0 <= j < leave_steps(departed(e0, items), before).len() ==> #[trigger] leave_steps(
                departed(e0, items),
                before,
            )[j].key != collected(items)[i].0,
        before.contains_key(collected(items)[i].0) ==> deferred_of(
            e1.alive_entries(),
            e1.mounted_keys(),
            before,
        ).contains(DeferredStep::Measure { key: collected(items)[i].0, before: before[collected(items)[i].0] }),
{
    let c = collected(items);
    let k = c[i].0;
    let ks = keys_of(c);
    assert(ks[i] == k);
    lemma_leave_step_keys(departed(e0, items), before);
    lemma_without_keys(e0.alive_entries(), ks);
    lemma_deferred_has(c, e1.mounted_keys(), before, i);
}

/// A key added by one cycle and removed by the next, with no mount between
/// them, never animates: the second cycle starts no leave animation for it,
/// it is no longer alive so no deferred pass starts an enter animation for
/// it, and the keys that stay start no leave animation.
pub proof fn lemma_added_then_removed(
    e0: Reconciler,
    e1: Reconciler,
    e2: Reconciler,
    first: Seq<(u64, u64)>,
    second: Seq<(u64, u64)>,
    before: Map<u64, ElementSnapshot>,
    k: u64,
)
    requires
        e0.wf(),
        stepped(e0, e1, first),
        stepped(e1, e2, second),
        !keys_of(e0.alive_entries()).contains(k),
        keys_of(collected(first)).contains(k),
        !keys_of(collected(second)).contains(k),
        forall|x: u64| #[trigger] before.contains_key(x) ==> e1.mounted_keys().contains(x),
    ensures
        forall|j: int|
            0 <= j < leave_steps(departed(e1, second), before).len() ==> #[trigger] leave_steps(
                departed(e1, second),
                before,
            )[j].key != k,
        forall|j: int|
            0 <= j < leave_steps(departed(e1, second), before).len() ==> !keys_of(collected(second)).contains(
                #[trigger] leave_steps(departed(e1, second), before)[j].key,
            ),
        forall|mounted: Set<u64>, snaps: Map<u64, ElementSnapshot>, j: int|
            0 <= j < deferred_of(e2.alive_entries(), mounted, snaps).len() ==> step_key(
                #[trigger] deferred_of(e2.alive_entries(), mounted, snaps)[j],
            ) != k,
{
    lemma_leave_steps_measured(departed(e1, second), before);
    lemma_leave_step_keys(departed(e1, second), before);
    lemma_without_keys(e1.alive_entries(), keys_of(collected(second)));
    assert forall|mounted: Set<u64>, snaps: Map<u64, ElementSnapshot>, j: int|
        0 <= j < deferred_of(e2.alive_entries(), mounted, snaps).len() implies step_key(
        #[trigger] deferred_of(e2.alive_entries(), mounted, snaps)[j],
    ) != k by {
        lemma_deferred_keys(e2.alive_entries(), mounted, snaps);
    }
}

proof fn lemma_leave_steps_measured(s: Seq<(u64, u64)>, snaps: Map<u64, ElementSnapshot>)
    ensures
        forall|j: int|
            0 <= j < leave_steps(s, snaps).len() ==> snaps.contains_key(
                #[trigger] leave_steps(s, snaps)[j].key,
            ),
    decreases s.len(),
{
    if s.len() > 0 {
        lemma_leave_steps_measured(s.drop_last(), snaps);
    }
}

} // verus!
