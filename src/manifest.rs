//! Manifests: a source image plus the rectangles cut out of it.
//!
//! A decoded manifest document carries its regions in one of several
//! equivalent shapes; `parse_manifest` brings them all to one sequence of
//! `SpriteRegion`s and checks that every region covers at least one pixel.

use vstd::prelude::*;

use crate::region::{RegionModel, Size, SpriteRegion};

verus! {

/// A region that always carries a name.
#[derive(Clone, Debug)]
pub struct NamedRegion {
    pub name: String,
    pub x: u32,
    pub y: u32,
    pub w: u32,
    pub h: u32,
}

/// A region without a name, reachable by position only.
#[derive(Clone, Copy, Debug)]
pub struct AnonymousRegion {
    pub x: u32,
    pub y: u32,
    pub w: u32,
    pub h: u32,
}

/// The shapes a manifest may give its region list in.
#[derive(Clone, Debug)]
pub enum RegionList {
    /// Regions each with an optional name.
    Listed(Vec<SpriteRegion>),
    /// Regions that all carry a name.
    NamedSprites(Vec<NamedRegion>),
    /// Regions that carry no name.
    Sprites(Vec<AnonymousRegion>),
}

/// A manifest as decoded, before its regions are normalized.
#[derive(Clone, Debug)]
pub struct ManifestDocument {
    pub path: String,
    pub width: Option<u32>,
    pub height: Option<u32>,
    pub sprites: RegionList,
}

/// A normalized manifest: the image's path, the atlas size it fixes in
/// advance (when it gives both width and height), and its regions in order.
#[derive(Clone, Debug)]
pub struct Manifest {
    pub image_path: String,
    pub preset_size: Option<Size>,
    pub regions: Vec<SpriteRegion>,
}

/// Why a manifest could not be turned into regions.
#[derive(Clone, Copy, Debug, PartialEq, Eq, Structural)]
pub enum ManifestError {
    /// The bytes did not decode; the position is given where the decoder
    /// knows it.
    Malformed { line: usize, column: usize },
    /// The region at `index` has a zero width or height.
    EmptyRegion { index: usize },
}

impl NamedRegion {
    pub open spec fn model(self) -> RegionModel {
        RegionModel { name: Some(self.name@), x: self.x, y: self.y, w: self.w, h: self.h }
    }
}

impl AnonymousRegion {
    pub open spec fn model(self) -> RegionModel {
        RegionModel { name: None, x: self.x, y: self.y, w: self.w, h: self.h }
    }
}

impl RegionList {
    /// The regions of the list, in order, whatever its shape.
    pub open spec fn models(self) -> Seq<RegionModel> {
        match self {
            RegionList::Listed(v) => v@.map_values(|r: SpriteRegion| r@),
            RegionList::NamedSprites(v) => v@.map_values(|r: NamedRegion| r.model()),
            RegionList::Sprites(v) => v@.map_values(|r: AnonymousRegion| r.model()),
        }
    }
}

impl Manifest {
    /// The regions, in order.
    pub open spec fn region_models(self) -> Seq<RegionModel> {
        self.regions@.map_values(|r: SpriteRegion| r@)
    }

    /// Every region covers at least one pixel.
    pub open spec fn well_formed(self) -> bool {
        forall|i: int| 0 <= i < self.regions@.len() ==> (#[trigger] self.regions@[i])@.non_empty()
    }
}

/// The size fixed in advance by a manifest's optional width and height.
pub open spec fn preset_of(width: Option<u32>, height: Option<u32>) -> Option<Size> {
    match (width, height) {
        (Some(w), Some(h)) => Some(Size { width: w, height: h }),
        _ => None,
    }
}

/// `i` is the first region with a zero extent.
pub open spec fn first_empty(regions: Seq<RegionModel>, i: int) -> bool {
    &&& 0 <= i < regions.len()
    &&& !regions[i].non_empty()
    &&& forall|j: int| 0 <= j < i ==> (#[trigger] regions[j]).non_empty()
}

/// `m` is `doc` normalized: the same image path, the size it fixes in
/// advance, and its regions in order as `SpriteRegion`s.
pub open spec fn parse_spec(doc: ManifestDocument, m: Manifest) -> bool {
    &&& m.image_path@ == doc.path@
    &&& m.preset_size == preset_of(doc.width, doc.height)
    &&& m.region_models() == doc.sprites.models()
}

fn named_to_region(r: &NamedRegion) -> (out: SpriteRegion)
    ensures
        out@ == r.model(),
{
    SpriteRegion { name: Some(r.name.clone()), x: r.x, y: r.y, w: r.w, h: r.h }
}

fn anonymous_to_region(r: &AnonymousRegion) -> (out: SpriteRegion)
    ensures
        out@ == r.model(),
{
    SpriteRegion { name: None, x: r.x, y: r.y, w: r.w, h: r.h }
}

/// Brings a region list of any shape to the single `SpriteRegion` form.
pub fn normalize_regions(list: &RegionList) -> (out: Vec<SpriteRegion>)
    ensures
        out@.map_values(|r: SpriteRegion| r@) == list.models(),
{
    let mut out: Vec<SpriteRegion> = Vec::new();
    match list {
        RegionList::Listed(v) => {
            let mut i: usize = 0;
            while i < v.len()
                invariant
                    i <= v@.len(),
                    out@.len() == i,
                    forall|k: int| 0 <= k < i ==> (#[trigger] out@[k])@ == v@[k]@,
                decreases v@.len() - i,
            {
                out.push(v[i].copy_region());
                i += 1;
            }
        },
        RegionList::NamedSprites(v) => {
            let mut i: usize = 0;
            while i < v.len()
                invariant
                    i <= v@.len(),
                    out@.len() == i,
                    forall|k: int| 0 <= k < i ==> (#[trigger] out@[k])@ == v@[k].model(),
                decreases v@.len() - i,
            {
                out.push(named_to_region(&v[i]));
                i += 1;
            }
        },
        RegionList::Sprites(v) => {
            let mut i: usize = 0;
            while i < v.len()
                invariant
                    i <= v@.len(),
                    out@.len() == i,
                    forall|k: int| 0 <= k < i ==> (#[trigger] out@[k])@ == v@[k].model(),
                decreases v@.len() - i,
            {
                out.push(anonymous_to_region(&v[i]));
                i += 1;
            }
        },
    }
    assert(out@.map_values(|r: SpriteRegion| r@) =~= list.models());
    out
}

/// The index of the first region with a zero extent, if there is one.
fn find_empty(regions: &Vec<SpriteRegion>) -> (r: Option<usize>)
    ensures
        match r {
            Some(i) => first_empty(regions@.map_values(|x: SpriteRegion| x@), i as int),
            None => forall|i: int|
                0 <= i < regions@.len() ==> (#[trigger] regions@[i])@.non_empty(),
        },
{
    let ghost models = regions@.map_values(|x: SpriteRegion| x@);
    let mut i: usize = 0;
    while i < regions.len()
        invariant
            i <= regions@.len(),
            models == regions@.map_values(|x: SpriteRegion| x@),
            forall|j: int| 0 <= j < i ==> (#[trigger] regions@[j])@.non_empty(),
        decreases regions@.len() - i,
    {
        if regions[i].w == 0 || regions[i].h == 0 {
            assert forall|j: int| 0 <= j < i implies (#[trigger] models[j]).non_empty() by {
                assert(models[j] == regions@[j]@);
            }
            return Some(i);
        }
        i += 1;
    }
    None
}

/// Normalizes a decoded manifest. It succeeds exactly when every region
/// covers at least one pixel; otherwise it names the first region that
/// does not.
pub fn parse_manifest(doc: &ManifestDocument) -> (r: Result<Manifest, ManifestError>)
    ensures
        match r {
            Ok(m) => {
                &&& parse_spec(*doc, m)
                &&& m.well_formed()
                &&& forall|i: int|
                    0 <= i < doc.sprites.models().len() ==> (#[trigger] doc.sprites.models()[i]).non_empty()
            },
            Err(e) => exists|i: int|
                first_empty(doc.sprites.models(), i) && e == (ManifestError::EmptyRegion {
                    index: i as usize,
                }),
        },
{
    let regions = normalize_regions(&doc.sprites);
    let ghost models = regions@.map_values(|x: SpriteRegion| x@);
    match find_empty(&regions) {
        Some(i) => Err(ManifestError::EmptyRegion { index: i }),
        None => {
            let preset_size = match (doc.width, doc.height) {
                (Some(w), Some(h)) => Some(Size { width: w, height: h }),
                _ => None,
            };
            let m = Manifest { image_path: doc.path.clone(), preset_size, regions };
            assert forall|i: int| 0 <= i < models.len() implies (#[trigger] models[i]).non_empty() by {
                assert(models[i] == m.regions@[i]@);
            }
            Ok(m)
        },
    }
}

} // verus!
