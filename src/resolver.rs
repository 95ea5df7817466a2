//! The engine that gives each atlas its size once its image has loaded.
//!
//! An atlas is created before its image is decoded, and the two completion
//! events may come in either order. Each tick, `Resolver::step` takes the
//! atlas-constructed events and then the image-loaded events delivered since
//! the previous tick, and answers with one `AtlasReady` per atlas that it
//! resolved. An atlas whose image never loads stays waiting.

use std::collections::{HashMap, HashSet};
use vstd::prelude::*;

use crate::region::Size;
use crate::resolver_laws::{lemma_on_constructed, lemma_on_loaded};

verus! {

broadcast use vstd::std_specs::hash::group_hash_axioms;

/// An atlas now exists; `size` is set when its manifest fixed the size in
/// advance.
#[derive(Clone, Copy, Debug, PartialEq, Eq)]
pub struct AtlasConstructed {
    pub atlas: u64,
    pub image: u64,
    pub size: Option<Size>,
}

/// An image finished decoding, with its pixel size.
#[derive(Clone, Copy, Debug, PartialEq, Eq)]
pub struct ImageLoaded {
    pub image: u64,
    pub size: Size,
}

/// An atlas has its final size: the caller writes it and publishes the
/// event. The atlas identity also names the manifest it was built from.
#[derive(Clone, Copy, Debug, PartialEq, Eq)]
pub struct AtlasReady {
    pub atlas: u64,
    pub size: Size,
}

/// The atlas appears in the waiting list of some image.
pub open spec fn waiting_contains(w: Map<u64, Seq<u64>>, atlas: u64) -> bool {
    exists|image: u64| w.contains_key(image) && #[trigger] w[image].contains(atlas)
}

/// No waiting list is empty or holds an atlas twice, and no atlas waits on
/// two images.
pub open spec fn waiting_well_formed(w: Map<u64, Seq<u64>>) -> bool {
    &&& forall|image: u64| #[trigger]
        w.contains_key(image) ==> w[image].len() > 0 && w[image].no_duplicates()
    &&& forall|i1: u64, i2: u64, a: u64|
        w.contains_key(i1) && w.contains_key(i2) && #[trigger] w[i1].contains(a)
            && #[trigger] w[i2].contains(a) ==> i1 == i2
}

/// The waiting lists after `atlas` registers under `image`.
pub open spec fn register_spec(w: Map<u64, Seq<u64>>, image: u64, atlas: u64) -> Map<
    u64,
    Seq<u64>,
> {
    if w.contains_key(image) {
        w.insert(image, w[image].push(atlas))
    } else {
        w.insert(image, seq![atlas])
    }
}

/// Registering an atlas that waits nowhere keeps the lists well formed and
/// adds exactly that atlas to those waiting.
pub proof fn lemma_register(w: Map<u64, Seq<u64>>, image: u64, atlas: u64)
    requires
        waiting_well_formed(w),
        !waiting_contains(w, atlas),
    ensures
        waiting_well_formed(register_spec(w, image, atlas)),
        forall|a: u64|
            waiting_contains(register_spec(w, image, atlas), a) <==> (waiting_contains(w, a) || a
                == atlas),
{
    let w1 = register_spec(w, image, atlas);
    assert forall|a: u64| waiting_contains(w1, a) <==> (waiting_contains(w, a) || a == atlas) by {
        if waiting_contains(w1, a) {
            let img = choose|img: u64| w1.contains_key(img) && #[trigger] w1[img].contains(a);
            if img != image || a != atlas {
                if img == image && w.contains_key(image) {
                    let k = choose|k: int| 0 <= k < w1[img].len() && w1[img][k] == a;
                    assert(w[image][k] == a);
                }
                assert(w[img].contains(a));
            }
        }
        if waiting_contains(w, a) {
            let img = choose|img: u64| w.contains_key(img) && #[trigger] w[img].contains(a);
            let k = choose|k: int| 0 <= k < w[img].len() && w[img][k] == a;
            assert(w1[img][k] == a);
            assert(w1[img].contains(a));
        }
        if a == atlas {
            assert(w1[image][w1[image].len() - 1] == a);
            assert(w1[image].contains(a));
        }
    }
    assert forall|i1: u64, i2: u64, a: u64|
        w1.contains_key(i1) && w1.contains_key(i2) && #[trigger] w1[i1].contains(a)
            && #[trigger] w1[i2].contains(a) implies i1 == i2 by {
        if a != atlas {
            if i1 == image {
                let k = choose|k: int| 0 <= k < w1[i1].len() && w1[i1][k] == a;
                if w.contains_key(image) {
                    assert(w[i1][k] == a);
                    assert(w[i1].contains(a));
                } else {
                    assert(w1[i1][k] == atlas);
                }
            }
            if i2 == image {
                let k = choose|k: int| 0 <= k < w1[i2].len() && w1[i2][k] == a;
                if w.contains_key(image) {
                    assert(w[i2][k] == a);
                    assert(w[i2].contains(a));
                } else {
                    assert(w1[i2][k] == atlas);
                }
            }
            assert(w[i1].contains(a) && w[i2].contains(a));
        } else {
            if i1 != image {
                assert(waiting_contains(w, a));
            }
            if i2 != image {
                assert(waiting_contains(w, a));
            }
        }
    }
    assert forall|img: u64| #[trigger]
        w1.contains_key(img) implies w1[img].len() > 0 && w1[img].no_duplicates() by {
        if img == image && w.contains_key(image) {
            assert forall|k1: int, k2: int|
                0 <= k1 < w1[img].len() && 0 <= k2 < w1[img].len() && k1 != k2 implies w1[img][k1]
                != w1[img][k2] by {
                if k1 == w[img].len() as int {
                    assert(w[img].contains(w1[img][k2]));
                }
                if k2 == w[img].len() as int {
                    assert(w[img].contains(w1[img][k1]));
                }
            }
        }
    }
}

/// Dropping an image's entry keeps the lists well formed, and leaves
/// waiting exactly the atlases that were not on that image's list.
pub proof fn lemma_remove(w: Map<u64, Seq<u64>>, image: u64)
    requires
        waiting_well_formed(w),
    ensures
        waiting_well_formed(w.remove(image)),
        forall|a: u64|
            waiting_contains(w.remove(image), a) <==> (waiting_contains(w, a) && !(w.contains_key(
                image,
            ) && w[image].contains(a))),
{
    let w1 = w.remove(image);
    assert forall|a: u64|
        waiting_contains(w1, a) <==> (waiting_contains(w, a) && !(w.contains_key(image)
            && w[image].contains(a))) by {
        if waiting_contains(w, a) {
            let img = choose|img: u64| w.contains_key(img) && #[trigger] w[img].contains(a);
            if img != image {
                assert(w1[img].contains(a));
            }
        }
        if waiting_contains(w1, a) {
            let img = choose|img: u64| w1.contains_key(img) && #[trigger] w1[img].contains(a);
            assert(w[img].contains(a));
        }
    }
}

/// Which atlases wait on which image, each list in order of registration.
/// An image with nobody waiting has no entry.
pub struct DependencyIndex {
    waiting: HashMap<u64, Vec<u64>>,
    pending: HashSet<u64>,
}

impl View for DependencyIndex {
    type V = Map<u64, Seq<u64>>;

    closed spec fn view(&self) -> Map<u64, Seq<u64>> {
        self.waiting@.map_values(|v: Vec<u64>| v@)
    }
}

impl DependencyIndex {
    pub closed spec fn well_formed(&self) -> bool {
        &&& waiting_well_formed(self@)
        &&& forall|a: u64| self.pending@.contains(a) <==> waiting_contains(self@, a)
    }

    /// An index with nobody waiting.
    pub fn new() -> (r: DependencyIndex)
        ensures
            r.well_formed(),
            r@ == Map::<u64, Seq<u64>>::empty(),
    {
        let r = DependencyIndex { waiting: HashMap::new(), pending: HashSet::new() };
        assert(r@ =~= Map::<u64, Seq<u64>>::empty());
        r
    }

    /// Some atlas waits on `image`.
    pub fn contains_image(&self, image: u64) -> (r: bool)
        ensures
            r == self@.contains_key(image),
    {
        self.waiting.contains_key(&image)
    }

    /// `atlas` waits on some image.
    pub fn is_pending(&self, atlas: u64) -> (r: bool)
        requires
            self.well_formed(),
        ensures
            r == waiting_contains(self@, atlas),
    {
        self.pending.contains(&atlas)
    }

    /// Puts `atlas` at the end of the list of those waiting on `image`.
    pub fn register(&mut self, image: u64, atlas: u64)
        requires
            old(self).well_formed(),
            !waiting_contains(old(self)@, atlas),
        ensures
            final(self).well_formed(),
            final(self)@ == register_spec(old(self)@, image, atlas),
    {
        let ghost w0 = self@;
        let mut list = match self.waiting.remove(&image) {
            Some(l) => l,
            None => Vec::new(),
        };
        list.push(atlas);
        self.waiting.insert(image, list);
        self.pending.insert(atlas);
        proof {
            lemma_register(w0, image, atlas);
        }
        assert(self@ =~= register_spec(w0, image, atlas));
        assert forall|a: u64| self.pending@.contains(a) <==> waiting_contains(self@, a) by {
            assert(waiting_contains(self@, a) <==> (waiting_contains(w0, a) || a == atlas));
        }
    }

    /// Removes `image`'s entry and hands back the atlases that waited on it,
    /// in order of registration.
    pub fn take(&mut self, image: u64) -> (r: Option<Vec<u64>>)
        requires
            old(self).well_formed(),
        ensures
            final(self).well_formed(),
            final(self)@ == old(self)@.remove(image),
            match r {
                Some(v) => old(self)@.contains_key(image) && v@ == old(self)@[image],
                None => !old(self)@.contains_key(image),
            },
    {
        let ghost w0 = self@;
        let ghost p0 = self.pending@;
        let r = self.waiting.remove(&image);
        let ghost w1 = w0.remove(image);
        assert(self@ =~= w1);
        match &r {
            Some(list) => {
                let mut k: usize = 0;
                while k < list.len()
                    invariant
                        k <= list@.len(),
                        list@ == w0[image],
                        w0.contains_key(image),
                        self@ == w1,
                        self.pending@ == p0.difference(list@.take(k as int).to_set()),
                    decreases list@.len() - k,
                {
                    let ghost before = self.pending@;
                    self.pending.remove(&list[k]);
                    assert(self.pending@ == before.remove(list@[k as int]));
                    proof {
                        let t0 = list@.take(k as int);
                        let t1 = list@.take((k + 1) as int);
                        assert(t1[k as int] == list@[k as int]);
                        assert forall|a: u64| t1.contains(a) <==> (t0.contains(a) || a == list@[k as int]) by {
                            assert(t1.contains(list@[k as int]));
                            if t0.contains(a) {
                                let j = choose|j: int| 0 <= j < t0.len() && #[trigger] t0[j] == a;
                                assert(t1[j] == a);
                            }
                            if t1.contains(a) && a != list@[k as int] {
                                let j = choose|j: int| 0 <= j < t1.len() && #[trigger] t1[j] == a;
                                assert(t0[j] == a);
                            }
                        }
                        assert(self.pending@ =~= p0.difference(t1.to_set()));
                    }
                    k += 1;
                }
                assert(list@.take(list@.len() as int) =~= list@);
                assert forall|a: u64| self.pending@.contains(a) <==> waiting_contains(w1, a) by {
                    assert(self.pending@.contains(a) <==> (p0.contains(a) && !list@.contains(a)));
                    if waiting_contains(w0, a) {
                        let img = choose|img: u64| w0.contains_key(img) && #[trigger] w0[img].contains(a);
                        if img != image {
                            assert(w1[img].contains(a));
                        }
                    }
                    if waiting_contains(w1, a) {
                        let img = choose|img: u64| w1.contains_key(img) && #[trigger] w1[img].contains(a);
                        assert(w0[img].contains(a));
                    }
                }
            },
            None => {
                assert(w1 =~= w0);
            },
        }
        r
    }
}

/// The resolver's state: the sizes of images known to be loaded, the atlases
/// waiting on each image, and the atlases already given their size.
pub struct ResolverModel {
    pub known: Map<u64, Size>,
    pub waiting: Map<u64, Seq<u64>>,
    pub resolved: Set<u64>,
}

impl ResolverModel {
    /// An atlas waits on at most one image, never after it is resolved, and
    /// never on an image whose size is known.
    pub open spec fn well_formed(self) -> bool {
        &&& waiting_well_formed(self.waiting)
        &&& forall|a: u64| waiting_contains(self.waiting, a) ==> !self.resolved.contains(a)
        &&& forall|image: u64| self.waiting.contains_key(image) ==> !self.known.contains_key(image)
    }

    /// The atlas has been seen, waiting or resolved.
    pub open spec fn seen(self, atlas: u64) -> bool {
        self.resolved.contains(atlas) || waiting_contains(self.waiting, atlas)
    }
}

/// One ready event for each atlas of `atlases`, in that order.
pub open spec fn readies(atlases: Seq<u64>, size: Size) -> Seq<AtlasReady> {
    atlases.map_values(|a: u64| AtlasReady { atlas: a, size })
}

/// What one atlas-constructed event does: nothing for an atlas already seen;
/// otherwise the atlas resolves at once when its size was fixed in advance
/// or its image's size is known, and else it waits on its image.
pub open spec fn on_constructed(s: ResolverModel, e: AtlasConstructed) -> (ResolverModel, Seq<
    AtlasReady,
>) {
    if s.seen(e.atlas) {
        (s, Seq::empty())
    } else {
        match e.size {
            Some(size) => (
                ResolverModel {
                    known: s.known,
                    waiting: s.waiting,
                    resolved: s.resolved.insert(e.atlas),
                },
                seq![AtlasReady { atlas: e.atlas, size }],
            ),
            None => if s.known.contains_key(e.image) {
                (
                    ResolverModel {
                        known: s.known,
                        waiting: s.waiting,
                        resolved: s.resolved.insert(e.atlas),
                    },
                    seq![AtlasReady { atlas: e.atlas, size: s.known[e.image] }],
                )
            } else {
                (
                    ResolverModel {
                        known: s.known,
                        waiting: register_spec(s.waiting, e.image, e.atlas),
                        resolved: s.resolved,
                    },
                    Seq::empty(),
                )
            },
        }
    }
}

/// What one image-loaded event does: the image's size becomes known, and
/// every atlas waiting on it resolves, in order of registration, and the
/// image leaves the index.
pub open spec fn on_loaded(s: ResolverModel, e: ImageLoaded) -> (ResolverModel, Seq<AtlasReady>) {
    if s.waiting.contains_key(e.image) {
        (
            ResolverModel {
                known: s.known.insert(e.image, e.size),
                waiting: s.waiting.remove(e.image),
                resolved: s.resolved.union(s.waiting[e.image].to_set()),
            },
            readies(s.waiting[e.image], e.size),
        )
    } else {
        (
            ResolverModel {
                known: s.known.insert(e.image, e.size),
                waiting: s.waiting,
                resolved: s.resolved,
            },
            Seq::empty(),
        )
    }
}

/// Atlas-constructed events handled one after the other.
pub open spec fn run_constructed(s: ResolverModel, events: Seq<AtlasConstructed>) -> (
    ResolverModel,
    Seq<AtlasReady>,
)
    decreases events.len(),
{
    if events.len() == 0 {
        (s, Seq::empty())
    } else {
        let before = run_constructed(s, events.drop_last());
        let after = on_constructed(before.0, events.last());
        (after.0, before.1 + after.1)
    }
}

/// Image-loaded events handled one after the other.
pub open spec fn run_loaded(s: ResolverModel, events: Seq<ImageLoaded>) -> (
    ResolverModel,
    Seq<AtlasReady>,
)
    decreases events.len(),
{
    if events.len() == 0 {
        (s, Seq::empty())
    } else {
        let before = run_loaded(s, events.drop_last());
        let after = on_loaded(before.0, events.last());
        (after.0, before.1 + after.1)
    }
}

/// One tick: this tick's atlas-constructed events first, then its
/// image-loaded events; the ready events of both, in that order.
pub open spec fn tick(
    s: ResolverModel,
    constructed: Seq<AtlasConstructed>,
    loaded: Seq<ImageLoaded>,
) -> (ResolverModel, Seq<AtlasReady>) {
    let first = run_constructed(s, constructed);
    let second = run_loaded(first.0, loaded);
    (second.0, first.1 + second.1)
}

/// The dependency resolver. It alone owns its index.
pub struct Resolver {
    known: HashMap<u64, Size>,
    index: DependencyIndex,
    resolved: HashSet<u64>,
}

impl View for Resolver {
    type V = ResolverModel;

    closed spec fn view(&self) -> ResolverModel {
        ResolverModel { known: self.known@, waiting: self.index@, resolved: self.resolved@ }
    }
}

impl Resolver {
    pub closed spec fn well_formed(&self) -> bool {
        self.index.well_formed() && self@.well_formed()
    }

    /// A resolver that knows no image and no atlas.
    pub fn new() -> (r: Resolver)
        ensures
            r.well_formed(),
            r@.well_formed(),
            r@.known == Map::<u64, Size>::empty(),
            r@.waiting == Map::<u64, Seq<u64>>::empty(),
            r@.resolved == Set::<u64>::empty(),
    {
        Resolver { known: HashMap::new(), index: DependencyIndex::new(), resolved: HashSet::new() }
    }

    /// The index of atlases waiting on images.
    pub fn index(&self) -> (r: &DependencyIndex)
        ensures
            r@ == self@.waiting,
    {
        &self.index
    }

    /// The atlas has been given its size.
    pub fn is_resolved(&self, atlas: u64) -> (r: bool)
        ensures
            r == self@.resolved.contains(atlas),
    {
        self.resolved.contains(&atlas)
    }

    /// The size of the image, if it is known to be loaded.
    pub fn known_size(&self, image: u64) -> (r: Option<Size>)
        ensures
            r == (if self@.known.contains_key(image) {
                Some(self@.known[image])
            } else {
                None
            }),
    {
        match self.known.get(&image) {
            Some(size) => Some(*size),
            None => None,
        }
    }

    fn handle_constructed(&mut self, e: &AtlasConstructed, out: &mut Vec<AtlasReady>)
        requires
            old(self).well_formed(),
        ensures
            final(self).well_formed(),
            final(self)@ == on_constructed(old(self)@, *e).0,
            final(out)@ == old(out)@ + on_constructed(old(self)@, *e).1,
    {
        let ghost s0 = self@;
        if self.resolved.contains(&e.atlas) || self.index.is_pending(e.atlas) {
            assert(out@ =~= out@ + Seq::<AtlasReady>::empty());
            return;
        }
        let ready = match e.size {
            Some(size) => Some(size),
            None => match self.known.get(&e.image) {
                Some(size) => Some(*size),
                None => None,
            },
        };
        match ready {
            Some(size) => {
                self.resolved.insert(e.atlas);
                out.push(AtlasReady { atlas: e.atlas, size });
                assert(self@ == on_constructed(s0, *e).0);
            },
            None => {
                self.index.register(e.image, e.atlas);
                assert(out@ =~= out@ + Seq::<AtlasReady>::empty());
                assert(self@ == on_constructed(s0, *e).0);
                proof {
                    lemma_on_constructed(s0, *e);
                }
            },
        }
    }

    fn handle_loaded(&mut self, e: &ImageLoaded, out: &mut Vec<AtlasReady>)
        requires
            old(self).well_formed(),
        ensures
            final(self).well_formed(),
            final(self)@ == on_loaded(old(self)@, *e).0,
            final(out)@ == old(out)@ + on_loaded(old(self)@, *e).1,
    {
        let ghost s0 = self@;
        let ghost out0 = out@;
        self.known.insert(e.image, e.size);
        match self.index.take(e.image) {
            Some(list) => {
                let ghost r0 = self.resolved@;
                let mut k: usize = 0;
                while k < list.len()
                    invariant
                        k <= list@.len(),
                        list@ == s0.waiting[e.image],
                        s0.waiting.contains_key(e.image),
                        self.index.well_formed(),
                        self.index@ == s0.waiting.remove(e.image),
                        self.known@ == s0.known.insert(e.image, e.size),
                        r0 == s0.resolved,
                        self.resolved@ == r0.union(list@.take(k as int).to_set()),
                        out@ == out0 + readies(list@.take(k as int), e.size),
                    decreases list@.len() - k,
                {
                    let ghost before = self.resolved@;
                    self.resolved.insert(list[k]);
                    out.push(AtlasReady { atlas: list[k], size: e.size });
                    proof {
                        let t0 = list@.take(k as int);
                        let t1 = list@.take((k + 1) as int);
                        assert(t1 =~= t0.push(list@[k as int]));
                        assert(t1.to_set() =~= t0.to_set().insert(list@[k as int])) by {
                            assert forall|a: u64| t1.contains(a) <==> (t0.contains(a) || a == list@[k as int]) by {
                                assert(t1[k as int] == list@[k as int]);
                                if t0.contains(a) {
                                    let j = choose|j: int| 0 <= j < t0.len() && #[trigger] t0[j] == a;
                                    assert(t1[j] == a);
                                }
                                if t1.contains(a) && a != list@[k as int] {
                                    let j = choose|j: int| 0 <= j < t1.len() && #[trigger] t1[j] == a;
                                    assert(t0[j] == a);
                                }
                            }
                        }
                        assert(self.resolved@ =~= r0.union(t1.to_set()));
                        assert(readies(t1, e.size) =~= readies(t0, e.size).push(AtlasReady { atlas: list@[k as int], size: e.size }));
                    }
                    k += 1;
                }
                assert(list@.take(list@.len() as int) =~= list@);
                assert(self@ == on_loaded(s0, *e).0);
                proof {
                    lemma_on_loaded(s0, *e);
                }
            },
            None => {
                assert(out@ =~= out0 + Seq::<AtlasReady>::empty());
                assert(self.index@ =~= s0.waiting);
                assert(self@ == on_loaded(s0, *e).0);
                proof {
                    lemma_on_loaded(s0, *e);
                }
            },
        }
    }

    /// Runs one tick: first this tick's atlas-constructed events, then its
    /// image-loaded events, each batch in order. Returns the ready events, one
    /// for each atlas resolved in this tick, in the order of resolution.
    pub fn step(&mut self, constructed: &Vec<AtlasConstructed>, loaded: &Vec<ImageLoaded>) -> (out:
        Vec<AtlasReady>)
        requires
            old(self).well_formed(),
        ensures
            final(self).well_formed(),
            final(self)@.well_formed(),
            (final(self)@, out@) == tick(old(self)@, constructed@, loaded@),
    {
        let ghost s0 = self@;
        let mut out: Vec<AtlasReady> = Vec::new();
        let mut i: usize = 0;
        while i < constructed.len()
            invariant
                i <= constructed@.len(),
                self.well_formed(),
                (self@, out@) == run_constructed(s0, constructed@.take(i as int)),
            decreases constructed@.len() - i,
        {
            assert(constructed@.take((i + 1) as int).drop_last() =~= constructed@.take(i as int));
            self.handle_constructed(&constructed[i], &mut out);
            i += 1;
        }
        assert(constructed@.take(constructed@.len() as int) =~= constructed@);
        let ghost s1 = self@;
        let ghost out1 = out@;
        let mut j: usize = 0;
        while j < loaded.len()
            invariant
                j <= loaded@.len(),
                self.well_formed(),
                (self@, out@) == (run_loaded(s1, loaded@.take(j as int)).0, out1 + run_loaded(
                    s1,
                    loaded@.take(j as int),
                ).1),
            decreases loaded@.len() - j,
        {
            assert(loaded@.take((j + 1) as int).drop_last() =~= loaded@.take(j as int));
            self.handle_loaded(&loaded[j], &mut out);
            assert(out@ =~= out1 + run_loaded(s1, loaded@.take((j + 1) as int)).1);
            j += 1;
        }
        assert(loaded@.take(loaded@.len() as int) =~= loaded@);
        out
    }
}

} // verus!
