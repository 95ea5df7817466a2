//! Atlases: the rectangles of one manifest over one image, reachable by
//! position and, for named regions, by name.

use vstd::prelude::*;

use crate::manifest::{
    first_empty, parse_manifest, preset_of, Manifest, ManifestDocument, ManifestError,
};
use crate::resolver::AtlasConstructed;
use crate::region::{Rect, RegionModel, Size};

verus! {

/// A name and the index of the rectangle it stands for.
#[derive(Clone, Debug)]
pub struct NameEntry {
    pub name: String,
    pub index: usize,
}

/// A region whose name an earlier region of the same manifest already
/// holds. Its rectangle is kept, reachable by position only.
#[derive(Clone, Debug)]
pub struct DuplicateName {
    pub name: String,
    pub region: usize,
}

/// Why a lookup by name failed.
#[derive(Clone, Copy, Debug, PartialEq, Eq, Structural)]
pub enum LookupError {
    NameNotFound,
}

/// The rectangles of one manifest over one image. `size` stays `None` until
/// the image's size is known, unless the manifest fixed it in advance.
#[derive(Clone, Debug)]
pub struct Atlas {
    pub image: u64,
    pub size: Option<Size>,
    pub rects: Vec<Rect>,
    pub names: Vec<NameEntry>,
}

/// Region `i` is the first one named `n`.
pub open spec fn first_named(regions: Seq<RegionModel>, n: Seq<char>, i: int) -> bool {
    &&& 0 <= i < regions.len()
    &&& regions[i].lookup_name() == Some(n)
    &&& forall|j: int| 0 <= j < i ==> (#[trigger] regions[j]).lookup_name() != Some(n)
}

/// The position of the first region named `n`, if any.
pub open spec fn index_by_name(regions: Seq<RegionModel>, n: Seq<char>) -> Option<int> {
    if exists|i: int| first_named(regions, n, i) {
        Some(choose|i: int| first_named(regions, n, i))
    } else {
        None
    }
}

/// Region `i` has a name that an earlier region already has.
pub open spec fn is_duplicate(regions: Seq<RegionModel>, i: int) -> bool {
    &&& 0 <= i < regions.len()
    &&& regions[i].lookup_name() is Some
    &&& exists|j: int| 0 <= j < i && (#[trigger] regions[j]).lookup_name() == regions[i].lookup_name()
}

/// `warnings` names, in manifest order, every region whose name was taken
/// before it, and no other.
pub open spec fn duplicates_reported(warnings: Seq<DuplicateName>, regions: Seq<RegionModel>) -> bool {
    &&& forall|k: int|
        0 <= k < warnings.len() ==> is_duplicate(regions, #[trigger] warnings[k].region as int)
            && regions[warnings[k].region as int].lookup_name() == Some(warnings[k].name@)
    &&& forall|k1: int, k2: int|
        0 <= k1 < k2 < warnings.len() ==> #[trigger] warnings[k1].region < #[trigger] warnings[k2].region
    &&& forall|i: int|
        is_duplicate(regions, i) ==> exists|k: int|
            0 <= k < warnings.len() && #[trigger] warnings[k].region == i
}

impl Atlas {
    /// Entry `k` is the first entry for the name `n`.
    pub open spec fn first_entry(self, n: Seq<char>, k: int) -> bool {
        &&& 0 <= k < self.names@.len()
        &&& self.names@[k].name@ == n
        &&& forall|j: int| 0 <= j < k ==> (#[trigger] self.names@[j]).name@ != n
    }

    /// The index that the name `n` gives, if any.
    pub open spec fn name_index(self, n: Seq<char>) -> Option<int> {
        if exists|k: int| self.first_entry(n, k) {
            Some(self.names@[choose|k: int| self.first_entry(n, k)].index as int)
        } else {
            None
        }
    }

    /// Names are unique and each names an existing rectangle.
    pub open spec fn well_formed(self) -> bool {
        &&& forall|k: int| 0 <= k < self.names@.len() ==> (#[trigger] self.names@[k]).index < self.rects@.len()
        &&& forall|k1: int, k2: int|
            0 <= k1 < self.names@.len() && 0 <= k2 < self.names@.len() && k1 != k2
                ==> (#[trigger] self.names@[k1]).name@ != (#[trigger] self.names@[k2]).name@
    }

    /// The atlas that `build_atlas` makes of `regions` over `image`:
    /// rectangle `i` is region `i`'s bounds, and each name gives the first
    /// region that carries it.
    pub open spec fn built_from(self, regions: Seq<RegionModel>, image: u64, size: Option<Size>) -> bool {
        &&& self.image == image
        &&& self.size == size
        &&& self.rects@.len() == regions.len()
        &&& forall|i: int| 0 <= i < regions.len() ==> self.rects@[i] == (#[trigger] regions[i]).rect()
        &&& forall|n: Seq<char>| #[trigger] self.name_index(n) == index_by_name(regions, n)
        &&& self.well_formed()
    }
}

/// The first entry of `names` for `n`.
fn find_name(names: &Vec<NameEntry>, n: &String) -> (r: Option<usize>)
    ensures
        match r {
            Some(k) => k < names@.len() && names@[k as int].name@ == n@ && forall|j: int|
                0 <= j < k ==> (#[trigger] names@[j]).name@ != n@,
            None => forall|j: int| 0 <= j < names@.len() ==> (#[trigger] names@[j]).name@ != n@,
        },
{
    let mut k: usize = 0;
    while k < names.len()
        invariant
            k <= names@.len(),
            forall|j: int| 0 <= j < k ==> (#[trigger] names@[j]).name@ != n@,
        decreases names@.len() - k,
    {
        if names[k].name == *n {
            return Some(k);
        }
        k += 1;
    }
    None
}

/// Builds the atlas of a manifest over an image that may still be loading.
/// Rectangle `i` is region `i`'s bounds. Each non-empty name gives the first
/// region that carries it; every later region with a name already taken is
/// reported, and keeps its rectangle. The size is the one the manifest fixed
/// in advance, if any, and otherwise unresolved.
pub fn build_atlas(manifest: &Manifest, image: u64) -> (r: (Atlas, Vec<DuplicateName>))
    requires
        manifest.well_formed(),
    ensures
        r.0.built_from(manifest.region_models(), image, manifest.preset_size),
        duplicates_reported(r.1@, manifest.region_models()),
{
    let ghost regions = manifest.region_models();
    let mut rects: Vec<Rect> = Vec::new();
    let mut names: Vec<NameEntry> = Vec::new();
    let mut warnings: Vec<DuplicateName> = Vec::new();
    let mut i: usize = 0;
    while i < manifest.regions.len()
        invariant
            i <= regions.len(),
            regions == manifest.region_models(),
            regions.len() == manifest.regions@.len(),
            manifest.well_formed(),
            rects@.len() == i,
            forall|k: int| 0 <= k < i ==> rects@[k] == (#[trigger] regions[k]).rect(),
            forall|k: int|
                0 <= k < names@.len() ==> (#[trigger] names@[k]).index < i && first_named(
                    regions,
                    names@[k].name@,
                    names@[k].index as int,
                ),
            forall|k1: int, k2: int|
                0 <= k1 < names@.len() && 0 <= k2 < names@.len() && k1 != k2
                    ==> (#[trigger] names@[k1]).name@ != (#[trigger] names@[k2]).name@,
            forall|j: int|
                0 <= j < i && (#[trigger] regions[j]).lookup_name() is Some ==> exists|k: int|
                    0 <= k < names@.len() && Some(#[trigger] names@[k].name@) == regions[j].lookup_name(),
            forall|k: int|
                0 <= k < warnings@.len() ==> is_duplicate(regions, #[trigger] warnings@[k].region as int)
                    && warnings@[k].region < i
                    && regions[warnings@[k].region as int].lookup_name() == Some(warnings@[k].name@),
            forall|k1: int, k2: int|
                0 <= k1 < k2 < warnings@.len() ==> #[trigger] warnings@[k1].region
                    < #[trigger] warnings@[k2].region,
            forall|j: int|
                0 <= j < i && is_duplicate(regions, j) ==> exists|k: int|
                    0 <= k < warnings@.len() && #[trigger] warnings@[k].region == j,
        decreases regions.len() - i,
    {
        let ghost names0 = names@;
        let ghost warnings0 = warnings@;
        let region = &manifest.regions[i];
        assert(regions[i as int] == region@);
        assert(region@.non_empty());
        rects.push(region.rect());
        match &region.name {
            Some(n) => {
                if !n.as_str().is_empty() {
                    let ghost nm = n@;
                    assert(regions[i as int].lookup_name() == Some(nm));
                    match find_name(&names, n) {
                        Some(k) => {
                            let ghost j = names@[k as int].index as int;
                            assert(regions[j].lookup_name() == Some(nm));
                            assert(is_duplicate(regions, i as int));
                            warnings.push(DuplicateName { name: n.clone(), region: i });
                            assert(warnings@[warnings@.len() - 1].region == i);
                            assert(Some(names@[k as int].name@) == regions[i as int].lookup_name());
                        },
                        None => {
                            assert forall|j: int| 0 <= j < i implies (#[trigger] regions[j]).lookup_name()
                                != Some(nm) by {
                                if regions[j].lookup_name() == Some(nm) {
                                    let k = choose|k: int|
                                        0 <= k < names@.len() && Some(#[trigger] names@[k].name@)
                                            == regions[j].lookup_name();
                                    assert(names@[k].name@ == nm);
                                }
                            }
                            assert(!is_duplicate(regions, i as int));
                            names.push(NameEntry { name: n.clone(), index: i });
                            assert(names@[names@.len() - 1].name@ == nm);
                            assert(Some(names@[names@.len() - 1].name@) == regions[i as int].lookup_name());
                        },
                    }
                } else {
                    assert(regions[i as int].lookup_name() is None);
                }
            },
            None => {
                assert(regions[i as int].lookup_name() is None);
            },
        }
        proof {
            assert(names0.len() <= names@.len());
            assert(forall|k: int| 0 <= k < names0.len() ==> names@[k] == names0[k]);
            assert(forall|k: int| 0 <= k < warnings0.len() ==> warnings@[k] == warnings0[k]);
            assert forall|j: int|
                0 <= j < i + 1 && (#[trigger] regions[j]).lookup_name() is Some implies exists|k: int|
                0 <= k < names@.len() && Some(#[trigger] names@[k].name@) == regions[j].lookup_name() by {
                if j < i as int {
                    let k = choose|k: int|
                        0 <= k < names0.len() && Some(#[trigger] names0[k].name@) == regions[j].lookup_name();
                    assert(names@[k] == names0[k]);
                }
            }
            assert forall|j: int|
                0 <= j < i + 1 && is_duplicate(regions, j) implies exists|k: int|
                0 <= k < warnings@.len() && #[trigger] warnings@[k].region == j by {
                if j < i as int {
                    let k = choose|k: int| 0 <= k < warnings0.len() && #[trigger] warnings0[k].region == j;
                    assert(warnings@[k] == warnings0[k]);
                } else {
                    assert(warnings@[warnings@.len() - 1].region == i);
                }
            }
        }
        i += 1;
    }
    let atlas = Atlas { image, size: manifest.preset_size, rects, names };
    proof {
        assert forall|n: Seq<char>| #[trigger] atlas.name_index(n) == index_by_name(regions, n) by {
            if exists|i: int| first_named(regions, n, i) {
                let i = choose|i: int| first_named(regions, n, i);
                let k = choose|k: int|
                    0 <= k < atlas.names@.len() && Some(#[trigger] atlas.names@[k].name@)
                        == regions[i].lookup_name();
                assert(atlas.first_entry(n, k));
                let k2 = choose|k: int| atlas.first_entry(n, k);
                assert(k2 == k);
                assert(first_named(regions, n, atlas.names@[k].index as int));
            } else {
                if exists|k: int| atlas.first_entry(n, k) {
                    let k = choose|k: int| atlas.first_entry(n, k);
                    assert(first_named(regions, n, atlas.names@[k].index as int));
                }
            }
        }
    }
    (atlas, warnings)
}

/// Turns a decoded manifest into its atlas over `image`, an image that may
/// still be loading. It fails exactly when a region has a zero extent, and
/// then names the first such region; otherwise the atlas is the one
/// `build_atlas` makes of the normalized regions, with the reported
/// duplicate names.
pub fn load_atlas(doc: &ManifestDocument, image: u64) -> (r: Result<(Atlas, Vec<DuplicateName>), ManifestError>)
    ensures
        match r {
            Ok((atlas, warnings)) => {
                &&& forall|i: int|
                    0 <= i < doc.sprites.models().len() ==> (#[trigger] doc.sprites.models()[i]).non_empty()
                &&& atlas.built_from(doc.sprites.models(), image, preset_of(doc.width, doc.height))
                &&& duplicates_reported(warnings@, doc.sprites.models())
            },
            Err(e) => exists|i: int|
                first_empty(doc.sprites.models(), i) && e == (ManifestError::EmptyRegion {
                    index: i as usize,
                }),
        },
{
    match parse_manifest(doc) {
        Ok(manifest) => Ok(build_atlas(&manifest, image)),
        Err(e) => Err(e),
    }
}

impl Atlas {
    /// The event that announces this atlas to the resolver under the
    /// identity `atlas`.
    pub fn constructed_event(&self, atlas: u64) -> (r: AtlasConstructed)
        ensures
            r == (AtlasConstructed { atlas, image: self.image, size: self.size }),
    {
        AtlasConstructed { atlas, image: self.image, size: self.size }
    }

    /// The index of the rectangle named `name`.
    pub fn lookup(&self, name: &str) -> (r: Result<usize, LookupError>)
        ensures
            r == (match self.name_index(name@) {
                Some(i) => Ok(i as usize),
                None => Err(LookupError::NameNotFound),
            }),
    {
        let key = name.to_owned();
        match find_name(&self.names, &key) {
            Some(k) => {
                assert(self.first_entry(name@, k as int));
                let ghost k2 = choose|k: int| self.first_entry(name@, k);
                assert(k2 == k as int);
                Ok(self.names[k].index)
            },
            None => Err(LookupError::NameNotFound),
        }
    }

    /// Gives the atlas its final size. Only an unresolved atlas is resolved,
    /// and nothing else of it changes.
    pub fn resolve(&mut self, size: Size)
        requires
            old(self).size is None,
        ensures
            final(self).size == Some(size),
            final(self).image == old(self).image,
            final(self).rects@ == old(self).rects@,
            final(self).names@ == old(self).names@,
    {
        self.size = Some(size);
    }
}

proof fn lemma_first_exists(regions: Seq<RegionModel>, n: Seq<char>, i: int)
    requires
        0 <= i < regions.len(),
        regions[i].lookup_name() == Some(n),
    ensures
        exists|f: int| 0 <= f <= i && first_named(regions, n, f),
    decreases i,
{
    if exists|j: int| 0 <= j < i && (#[trigger] regions[j]).lookup_name() == Some(n) {
        let j = choose|j: int| 0 <= j < i && (#[trigger] regions[j]).lookup_name() == Some(n);
        lemma_first_exists(regions, n, j);
    } else {
        assert(first_named(regions, n, i));
    }
}

/// Of two regions with the same name, the name gives the earlier one (or a
/// still earlier region with that name), never the later; the later keeps
/// its rectangle at its own position.
pub proof fn duplicate_name_first_wins(
    atlas: Atlas,
    regions: Seq<RegionModel>,
    image: u64,
    size: Option<Size>,
    i: int,
    j: int,
)
    requires
        atlas.built_from(regions, image, size),
        0 <= i < j < regions.len(),
        regions[i].lookup_name() is Some,
        regions[j].lookup_name() == regions[i].lookup_name(),
    ensures
        atlas.name_index(regions[i].lookup_name()->0) is Some,
        atlas.name_index(regions[i].lookup_name()->0)->0 <= i,
        atlas.name_index(regions[i].lookup_name()->0) != Some(j),
        (forall|k: int| 0 <= k < i ==> (#[trigger] regions[k]).lookup_name() != regions[i].lookup_name())
            ==> atlas.name_index(regions[i].lookup_name()->0) == Some(i),
        atlas.rects@[j] == regions[j].rect(),
{
    let n = regions[i].lookup_name()->0;
    lemma_first_exists(regions, n, i);
    let f = choose|f: int| first_named(regions, n, f);
    assert(atlas.name_index(n) == index_by_name(regions, n));
    let f0 = choose|f: int| 0 <= f <= i && first_named(regions, n, f);
    assert(f == f0);
    if forall|k: int| 0 <= k < i ==> (#[trigger] regions[k]).lookup_name() != regions[i].lookup_name() {
        assert(first_named(regions, n, i));
    }
}

} // verus!
