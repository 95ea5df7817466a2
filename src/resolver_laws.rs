//! What holds of every tick of the resolver, whatever the order in which
//! atlases and images complete.

use vstd::prelude::*;

use crate::resolver::{
    lemma_register, lemma_remove, on_constructed, on_loaded, readies, register_spec, run_constructed,
    run_loaded, tick, waiting_contains, AtlasConstructed, AtlasReady, ImageLoaded, ResolverModel,
};

verus! {

/// Going from `s` to `s2` with the ready events `out`: the state stays well
/// formed, no atlas loses its resolved mark, and each event is for a
/// distinct atlas that was unresolved in `s` and is resolved in `s2`.
pub open spec fn resolves_fresh(s: ResolverModel, s2: ResolverModel, out: Seq<AtlasReady>) -> bool {
    &&& s2.well_formed()
    &&& s.resolved.subset_of(s2.resolved)
    &&& forall|k: int|
        0 <= k < out.len() ==> !s.resolved.contains(#[trigger] out[k].atlas) && s2.resolved.contains(
            out[k].atlas,
        )
    &&& forall|k1: int, k2: int|
        0 <= k1 < out.len() && 0 <= k2 < out.len() && k1 != k2 ==> #[trigger] out[k1].atlas
            != #[trigger] out[k2].atlas
}

/// The atlases of a batch of atlas-constructed events, in order.
pub open spec fn atlases_of(events: Seq<AtlasConstructed>) -> Seq<u64> {
    events.map_values(|e: AtlasConstructed| e.atlas)
}

/// The atlases already waiting on `image`.
pub open spec fn waiting_on(s: ResolverModel, image: u64) -> Seq<u64> {
    if s.waiting.contains_key(image) {
        s.waiting[image]
    } else {
        Seq::empty()
    }
}

pub(crate) proof fn lemma_on_constructed(s: ResolverModel, e: AtlasConstructed)
    requires
        s.well_formed(),
    ensures
        resolves_fresh(s, on_constructed(s, e).0, on_constructed(s, e).1),
        on_constructed(s, e).0.known == s.known,
        forall|a: u64| #[trigger] on_constructed(s, e).0.seen(a) <==> (s.seen(a) || a == e.atlas),
{
    let r = on_constructed(s, e);
    if !s.seen(e.atlas) && e.size is None && !s.known.contains_key(e.image) {
        lemma_register(s.waiting, e.image, e.atlas);
        assert forall|image: u64| r.0.waiting.contains_key(image) implies !r.0.known.contains_key(
            image,
        ) by {
            if image != e.image {
                assert(s.waiting.contains_key(image));
            }
        }
    }
}

pub(crate) proof fn lemma_on_loaded(s: ResolverModel, e: ImageLoaded)
    requires
        s.well_formed(),
    ensures
        resolves_fresh(s, on_loaded(s, e).0, on_loaded(s, e).1),
{
    let r = on_loaded(s, e);
    lemma_remove(s.waiting, e.image);
    if s.waiting.contains_key(e.image) {
        let w = s.waiting[e.image];
        assert forall|k: int| 0 <= k < r.1.len() implies !s.resolved.contains(#[trigger] r.1[k].atlas)
            && r.0.resolved.contains(r.1[k].atlas) by {
            assert(w.contains(w[k]));
            assert(waiting_contains(s.waiting, w[k]));
        }
        assert forall|a: u64| waiting_contains(r.0.waiting, a) implies !r.0.resolved.contains(a) by {
            assert(waiting_contains(s.waiting, a));
        }
        assert forall|image: u64| r.0.waiting.contains_key(image) implies !r.0.known.contains_key(
            image,
        ) by {
            assert(s.waiting.contains_key(image));
        }
    } else {
        assert forall|image: u64| r.0.waiting.contains_key(image) implies !r.0.known.contains_key(
            image,
        ) by {
            assert(s.waiting.contains_key(image));
        }
    }
}

proof fn lemma_compose(
    s: ResolverModel,
    s1: ResolverModel,
    o1: Seq<AtlasReady>,
    s2: ResolverModel,
    o2: Seq<AtlasReady>,
)
    requires
        resolves_fresh(s, s1, o1),
        resolves_fresh(s1, s2, o2),
    ensures
        resolves_fresh(s, s2, o1 + o2),
{
    let o = o1 + o2;
    assert forall|k: int| 0 <= k < o.len() implies !s.resolved.contains(#[trigger] o[k].atlas)
        && s2.resolved.contains(o[k].atlas) by {
        if k < o1.len() {
            assert(o[k] == o1[k]);
        } else {
            assert(o[k] == o2[k - o1.len()]);
        }
    }
    assert forall|k1: int, k2: int|
        0 <= k1 < o.len() && 0 <= k2 < o.len() && k1 != k2 implies #[trigger] o[k1].atlas
        != #[trigger] o[k2].atlas by {
        if k1 < o1.len() && k2 >= o1.len() {
            assert(o[k1] == o1[k1]);
            assert(o[k2] == o2[k2 - o1.len()]);
        } else if k2 < o1.len() && k1 >= o1.len() {
            assert(o[k2] == o1[k2]);
            assert(o[k1] == o2[k1 - o1.len()]);
        } else if k1 < o1.len() {
            assert(o[k1] == o1[k1] && o[k2] == o1[k2]);
        } else {
            assert(o[k1] == o2[k1 - o1.len()] && o[k2] == o2[k2 - o1.len()]);
        }
    }
}

proof fn lemma_resolves_nothing(s: ResolverModel)
    requires
        s.well_formed(),
    ensures
        resolves_fresh(s, s, Seq::empty()),
{
}

proof fn lemma_run_constructed(s: ResolverModel, events: Seq<AtlasConstructed>)
    requires
        s.well_formed(),
    ensures
        resolves_fresh(s, run_constructed(s, events).0, run_constructed(s, events).1),
        run_constructed(s, events).0.known == s.known,
        forall|a: u64| #[trigger]
            run_constructed(s, events).0.seen(a) <==> (s.seen(a) || atlases_of(events).contains(
                a,
            )),
    decreases events.len(),
{
    if events.len() == 0 {
        lemma_resolves_nothing(s);
    } else {
        let init = events.drop_last();
        lemma_run_constructed(s, init);
        let mid = run_constructed(s, init);
        lemma_on_constructed(mid.0, events.last());
        let after = on_constructed(mid.0, events.last());
        lemma_compose(s, mid.0, mid.1, after.0, after.1);
        assert forall|a: u64| #[trigger]
            run_constructed(s, events).0.seen(a) <==> (s.seen(a) || atlases_of(events).contains(
                a,
            )) by {
            let all = atlases_of(events);
            let some = atlases_of(init);
            assert(all =~= some.push(events.last().atlas));
            if some.contains(a) {
                let j = choose|j: int| 0 <= j < some.len() && some[j] == a;
                assert(all[j] == a);
            }
            if all.contains(a) && a != events.last().atlas {
                let j = choose|j: int| 0 <= j < all.len() && all[j] == a;
                assert(some[j] == a);
            }
            assert(all[all.len() - 1] == events.last().atlas);
        }
    }
}

proof fn lemma_run_loaded(s: ResolverModel, events: Seq<ImageLoaded>)
    requires
        s.well_formed(),
    ensures
        resolves_fresh(s, run_loaded(s, events).0, run_loaded(s, events).1),
    decreases events.len(),
{
    if events.len() == 0 {
        lemma_resolves_nothing(s);
    } else {
        let init = events.drop_last();
        lemma_run_loaded(s, init);
        let mid = run_loaded(s, init);
        lemma_on_loaded(mid.0, events.last());
        let after = on_loaded(mid.0, events.last());
        lemma_compose(s, mid.0, mid.1, after.0, after.1);
    }
}

/// No atlas is resolved twice: within one tick, whatever its two batches
/// hold, every ready event is for a distinct atlas that was unresolved
/// before the tick and is resolved after it, and no atlas that was resolved
/// stops being so. As each tick starts from the state the previous one left,
/// no interleaving of ticks resolves an atlas a second time either.
pub proof fn no_double_resolution(
    s: ResolverModel,
    constructed: Seq<AtlasConstructed>,
    loaded: Seq<ImageLoaded>,
)
    requires
        s.well_formed(),
    ensures
        resolves_fresh(s, tick(s, constructed, loaded).0, tick(s, constructed, loaded).1),
{
    lemma_run_constructed(s, constructed);
    let first = run_constructed(s, constructed);
    lemma_run_loaded(first.0, loaded);
    let second = run_loaded(first.0, loaded);
    lemma_compose(s, first.0, first.1, second.0, second.1);
}

proof fn lemma_constructed_prefix(s: ResolverModel, events: Seq<AtlasConstructed>, m: int)
    requires
        0 <= m <= events.len(),
    ensures
        run_constructed(s, events.take(m)).1.len() <= run_constructed(s, events).1.len(),
        forall|i: int|
            0 <= i < run_constructed(s, events.take(m)).1.len() ==> run_constructed(s, events).1[i]
                == run_constructed(s, events.take(m)).1[i],
    decreases events.len(),
{
    if m == events.len() {
        assert(events.take(m) =~= events);
    } else {
        let init = events.drop_last();
        assert(init.take(m) =~= events.take(m));
        lemma_constructed_prefix(s, init, m);
    }
}

/// Fast path: an atlas constructed after its image's size is known resolves
/// in the tick that constructs it, with that size, provided nothing of that
/// atlas was seen before (neither in an earlier tick nor earlier in this
/// one).
pub proof fn fast_path(
    s: ResolverModel,
    constructed: Seq<AtlasConstructed>,
    loaded: Seq<ImageLoaded>,
    k: int,
)
    requires
        s.well_formed(),
        0 <= k < constructed.len(),
        constructed[k].size is None,
        s.known.contains_key(constructed[k].image),
        !s.seen(constructed[k].atlas),
        forall|j: int| 0 <= j < k ==> (#[trigger] constructed[j]).atlas != constructed[k].atlas,
    ensures
        tick(s, constructed, loaded).1.contains(
            AtlasReady { atlas: constructed[k].atlas, size: s.known[constructed[k].image] },
        ),
        tick(s, constructed, loaded).0.resolved.contains(constructed[k].atlas),
{
    let e = constructed[k];
    let ready = AtlasReady { atlas: e.atlas, size: s.known[e.image] };
    let before = constructed.take(k);
    lemma_run_constructed(s, before);
    let mid = run_constructed(s, before);
    if atlases_of(before).contains(e.atlas) {
        let j = choose|j: int| 0 <= j < atlases_of(before).len() && atlases_of(before)[j] == e.atlas;
        assert(constructed[j].atlas == e.atlas);
    }
    assert(!mid.0.seen(e.atlas));
    assert(constructed.take(k + 1).drop_last() =~= before);
    assert(constructed.take(k + 1).last() == e);
    let upto = run_constructed(s, constructed.take(k + 1));
    assert(upto.1 == mid.1 + seq![ready]);
    assert(upto.1[mid.1.len() as int] == ready);
    lemma_constructed_prefix(s, constructed, k + 1);
    let first = run_constructed(s, constructed);
    let second = run_loaded(first.0, loaded);
    let out = tick(s, constructed, loaded).1;
    assert(out == first.1 + second.1);
    assert(out[mid.1.len() as int] == ready);
    no_double_resolution(s, constructed, loaded);
    assert(tick(s, constructed, loaded).0.resolved.contains(out[mid.1.len() as int].atlas));
}

proof fn lemma_register_all(s: ResolverModel, events: Seq<AtlasConstructed>, image: u64)
    requires
        s.well_formed(),
        !s.known.contains_key(image),
        forall|k: int|
            0 <= k < events.len() ==> (#[trigger] events[k]).image == image && events[k].size is None
                && !s.seen(events[k].atlas),
        forall|k1: int, k2: int|
            0 <= k1 < events.len() && 0 <= k2 < events.len() && k1 != k2 ==> (#[trigger] events[k1]).atlas
                != (#[trigger] events[k2]).atlas,
    ensures
        run_constructed(s, events).1 == Seq::<AtlasReady>::empty(),
        run_constructed(s, events).0.known == s.known,
        run_constructed(s, events).0.resolved == s.resolved,
        events.len() > 0 ==> run_constructed(s, events).0.waiting == s.waiting.insert(
            image,
            waiting_on(s, image) + atlases_of(events),
        ),
        events.len() == 0 ==> run_constructed(s, events).0.waiting == s.waiting,
    decreases events.len(),
{
    if events.len() > 0 {
        let init = events.drop_last();
        let e = events.last();
        lemma_register_all(s, init, image);
        lemma_run_constructed(s, init);
        let mid = run_constructed(s, init);
        if atlases_of(init).contains(e.atlas) {
            let j = choose|j: int| 0 <= j < atlases_of(init).len() && atlases_of(init)[j] == e.atlas;
            assert(events[j].atlas == e.atlas);
            assert(events[events.len() - 1] == e);
        }
        assert(!mid.0.seen(e.atlas));
        assert(mid.1 + Seq::<AtlasReady>::empty() =~= Seq::<AtlasReady>::empty());
        assert(atlases_of(events) =~= atlases_of(init).push(e.atlas));
        let after = on_constructed(mid.0, e);
        assert(after.0.waiting == register_spec(mid.0.waiting, image, e.atlas));
        if init.len() > 0 {
            assert(mid.0.waiting[image] == waiting_on(s, image) + atlases_of(init));
            assert(after.0.waiting =~= s.waiting.insert(image, waiting_on(s, image) + atlases_of(events)));
        } else {
            assert(atlases_of(init) =~= Seq::<u64>::empty());
            if s.waiting.contains_key(image) {
                assert(waiting_on(s, image) + atlases_of(init) =~= waiting_on(s, image));
                assert(after.0.waiting =~= s.waiting.insert(image, waiting_on(s, image) + atlases_of(events)));
            } else {
                assert(waiting_on(s, image) + atlases_of(events) =~= seq![e.atlas]);
                assert(after.0.waiting =~= s.waiting.insert(image, waiting_on(s, image) + atlases_of(events)));
            }
        }
    }
}

/// Join: when two or more atlases register on an image whose size is not
/// yet known, none resolves before the image loads; the one image-loaded
/// event then resolves every atlas waiting on it, the new ones included, in
/// order of registration, and the index no longer holds the image. The same
/// holds when registration and the load come in one tick.
pub proof fn join_resolves_all(s: ResolverModel, constructed: Seq<AtlasConstructed>, e: ImageLoaded)
    requires
        s.well_formed(),
        constructed.len() >= 2,
        !s.known.contains_key(e.image),
        forall|k: int|
            0 <= k < constructed.len() ==> (#[trigger] constructed[k]).image == e.image
                && constructed[k].size is None && !s.seen(constructed[k].atlas),
        forall|k1: int, k2: int|
            0 <= k1 < constructed.len() && 0 <= k2 < constructed.len() && k1 != k2
                ==> (#[trigger] constructed[k1]).atlas != (#[trigger] constructed[k2]).atlas,
    ensures
        run_constructed(s, constructed).1 == Seq::<AtlasReady>::empty(),
        run_constructed(s, constructed).0.waiting[e.image] == waiting_on(s, e.image) + atlases_of(
            constructed,
        ),
        on_loaded(run_constructed(s, constructed).0, e).1 == readies(
            waiting_on(s, e.image) + atlases_of(constructed),
            e.size,
        ),
        forall|k: int|
            0 <= k < constructed.len() ==> on_loaded(run_constructed(s, constructed).0, e).1.contains(
                AtlasReady { atlas: (#[trigger] constructed[k]).atlas, size: e.size },
            ),
        !on_loaded(run_constructed(s, constructed).0, e).0.waiting.contains_key(e.image),
        tick(s, constructed, seq![e]) == on_loaded(run_constructed(s, constructed).0, e),
{
    lemma_register_all(s, constructed, e.image);
    let first = run_constructed(s, constructed);
    let w = waiting_on(s, e.image) + atlases_of(constructed);
    let out = on_loaded(first.0, e).1;
    assert forall|k: int| 0 <= k < constructed.len() implies out.contains(
        AtlasReady { atlas: (#[trigger] constructed[k]).atlas, size: e.size },
    ) by {
        let i = waiting_on(s, e.image).len() + k;
        assert(w[i] == constructed[k].atlas);
        assert(out[i] == AtlasReady { atlas: constructed[k].atlas, size: e.size });
    }
    assert(seq![e].drop_last() =~= Seq::<ImageLoaded>::empty());
    assert(seq![e].last() == e);
    let none = run_loaded(first.0, Seq::<ImageLoaded>::empty());
    assert(none.0 == first.0 && none.1 == Seq::<AtlasReady>::empty());
    let second = run_loaded(first.0, seq![e]);
    assert(second.0 == on_loaded(first.0, e).0);
    assert(second.1 =~= on_loaded(first.0, e).1);
    assert(first.1 + second.1 =~= on_loaded(first.0, e).1);
}

} // verus!
