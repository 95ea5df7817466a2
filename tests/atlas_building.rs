use heterogeneous_atlas::atlas::{build_atlas, load_atlas, LookupError};
use heterogeneous_atlas::manifest::{
    normalize_regions, parse_manifest, AnonymousRegion, ManifestDocument, ManifestError,
    NamedRegion, RegionList,
};
use heterogeneous_atlas::region::{Rect, Size, SpriteRegion};

fn region(name: Option<&str>, x: u32, y: u32, w: u32, h: u32) -> SpriteRegion {
    SpriteRegion { name: name.map(|n| n.to_string()), x, y, w, h }
}

fn listed(path: &str, regions: Vec<SpriteRegion>) -> ManifestDocument {
    ManifestDocument {
        path: path.to_string(),
        width: None,
        height: None,
        sprites: RegionList::Listed(regions),
    }
}

#[test]
fn sheet_scenario_builds_two_rects() {
    let doc = listed(
        "sheet.png",
        vec![region(Some("a"), 0, 0, 10, 10), region(None, 10, 0, 5, 5)],
    );
    let (atlas, warnings) = load_atlas(&doc, 1).unwrap();
    assert!(warnings.is_empty());
    assert_eq!(atlas.image, 1);
    assert_eq!(atlas.size, None);
    assert_eq!(atlas.rects.len(), 2);
    assert_eq!(atlas.rects[0], Rect { min_x: 0, min_y: 0, max_x: 9, max_y: 9 });
    assert_eq!(atlas.rects[1], Rect { min_x: 10, min_y: 0, max_x: 14, max_y: 4 });
    assert_eq!(atlas.lookup("a"), Ok(0));
    assert_eq!(atlas.names.len(), 1);
    assert_eq!(atlas.lookup("b"), Err(LookupError::NameNotFound));
}

#[test]
fn rect_count_matches_region_count() {
    let regions: Vec<SpriteRegion> =
        (0..7u32).map(|i| region(None, i * 3, i, 1 + i, 2 + i)).collect();
    let manifest = parse_manifest(&listed("many.png", regions)).unwrap();
    let (atlas, _) = build_atlas(&manifest, 9);
    assert_eq!(atlas.rects.len(), 7);
    for i in 0..7u64 {
        let r = atlas.rects[i as usize];
        assert_eq!((r.min_x, r.min_y), (i * 3, i));
        assert_eq!((r.max_x, r.max_y), (i * 3 + i, i + 1 + i));
    }
}

#[test]
fn empty_manifest_gives_empty_atlas() {
    let (atlas, warnings) = load_atlas(&listed("none.png", vec![]), 2).unwrap();
    assert!(atlas.rects.is_empty());
    assert!(atlas.names.is_empty());
    assert!(warnings.is_empty());
}

#[test]
fn rect_bounds_are_inclusive() {
    let r = region(None, 3, 4, 1, 1).rect();
    assert_eq!(r, Rect { min_x: 3, min_y: 4, max_x: 3, max_y: 4 });
    assert_eq!((r.width(), r.height()), (1, 1));
    let r = region(None, 2, 5, 8, 6).rect();
    assert_eq!(r, Rect { min_x: 2, min_y: 5, max_x: 9, max_y: 10 });
    assert_eq!((r.width(), r.height()), (8, 6));
}

#[test]
fn rect_at_the_largest_coordinates() {
    let r = region(None, u32::MAX, u32::MAX, u32::MAX, 1).rect();
    assert_eq!(r.min_x, u32::MAX as u64);
    assert_eq!(r.max_x, 2 * (u32::MAX as u64) - 1);
    assert_eq!(r.max_y, u32::MAX as u64);
    assert_eq!((r.width(), r.height()), (u32::MAX, 1));
}

#[test]
fn duplicate_name_keeps_first() {
    let doc = listed(
        "dup.png",
        vec![
            region(Some("x"), 0, 0, 2, 2),
            region(Some("y"), 2, 0, 2, 2),
            region(Some("x"), 4, 0, 3, 3),
        ],
    );
    let (atlas, warnings) = load_atlas(&doc, 3).unwrap();
    assert_eq!(atlas.lookup("x"), Ok(0));
    assert_eq!(atlas.lookup("y"), Ok(1));
    assert_eq!(atlas.rects.len(), 3);
    assert_eq!(atlas.rects[2], Rect { min_x: 4, min_y: 0, max_x: 6, max_y: 2 });
    assert_eq!(warnings.len(), 1);
    assert_eq!(warnings[0].name, "x");
    assert_eq!(warnings[0].region, 2);
}

#[test]
fn every_later_duplicate_is_reported_in_order() {
    let doc = listed(
        "dup.png",
        vec![
            region(Some("x"), 0, 0, 1, 1),
            region(Some("x"), 1, 0, 1, 1),
            region(Some("z"), 2, 0, 1, 1),
            region(Some("x"), 3, 0, 1, 1),
            region(Some("z"), 4, 0, 1, 1),
        ],
    );
    let (atlas, warnings) = load_atlas(&doc, 3).unwrap();
    assert_eq!(atlas.lookup("x"), Ok(0));
    assert_eq!(atlas.lookup("z"), Ok(2));
    let reported: Vec<(String, usize)> =
        warnings.iter().map(|w| (w.name.clone(), w.region)).collect();
    assert_eq!(
        reported,
        vec![("x".to_string(), 1), ("x".to_string(), 3), ("z".to_string(), 4)]
    );
}

#[test]
fn empty_name_is_anonymous() {
    let doc = listed("e.png", vec![region(Some(""), 0, 0, 1, 1), region(Some(""), 1, 1, 1, 1)]);
    let (atlas, warnings) = load_atlas(&doc, 4).unwrap();
    assert!(atlas.names.is_empty());
    assert!(warnings.is_empty());
    assert_eq!(atlas.lookup(""), Err(LookupError::NameNotFound));
}

#[test]
fn zero_extent_region_is_rejected() {
    let doc = listed(
        "bad.png",
        vec![region(None, 0, 0, 1, 1), region(None, 0, 0, 0, 4), region(None, 0, 0, 4, 0)],
    );
    assert_eq!(parse_manifest(&doc).unwrap_err(), ManifestError::EmptyRegion { index: 1 });
    assert_eq!(load_atlas(&doc, 5).unwrap_err(), ManifestError::EmptyRegion { index: 1 });
    let doc = listed("bad.png", vec![region(Some("h"), 0, 0, 3, 0)]);
    assert_eq!(parse_manifest(&doc).unwrap_err(), ManifestError::EmptyRegion { index: 0 });
}

#[test]
fn named_and_anonymous_shapes_normalize_alike() {
    let named = RegionList::NamedSprites(vec![
        NamedRegion { name: "a".to_string(), x: 0, y: 0, w: 10, h: 10 },
        NamedRegion { name: "b".to_string(), x: 10, y: 0, w: 5, h: 5 },
    ]);
    let out = normalize_regions(&named);
    assert_eq!(out.len(), 2);
    assert_eq!(out[0].name.as_deref(), Some("a"));
    assert_eq!(out[1].name.as_deref(), Some("b"));
    assert_eq!((out[1].x, out[1].y, out[1].w, out[1].h), (10, 0, 5, 5));

    let anonymous = RegionList::Sprites(vec![
        AnonymousRegion { x: 1, y: 2, w: 3, h: 4 },
        AnonymousRegion { x: 5, y: 6, w: 7, h: 8 },
    ]);
    let out = normalize_regions(&anonymous);
    assert_eq!(out.len(), 2);
    assert!(out.iter().all(|r| r.name.is_none()));
    assert_eq!((out[1].x, out[1].y, out[1].w, out[1].h), (5, 6, 7, 8));

    let doc = ManifestDocument {
        path: "n.png".to_string(),
        width: None,
        height: None,
        sprites: named,
    };
    let (atlas, _) = load_atlas(&doc, 6).unwrap();
    assert_eq!(atlas.lookup("b"), Ok(1));
    assert_eq!(atlas.rects[1], Rect { min_x: 10, min_y: 0, max_x: 14, max_y: 4 });
}

#[test]
fn preset_size_needs_width_and_height() {
    let mut doc = listed("p.png", vec![region(None, 0, 0, 1, 1)]);
    doc.width = Some(32);
    doc.height = Some(16);
    let m = parse_manifest(&doc).unwrap();
    assert_eq!(m.image_path, "p.png");
    assert_eq!(m.preset_size, Some(Size { width: 32, height: 16 }));
    let (atlas, _) = build_atlas(&m, 7);
    assert_eq!(atlas.size, Some(Size { width: 32, height: 16 }));

    doc.height = None;
    let m = parse_manifest(&doc).unwrap();
    assert_eq!(m.preset_size, None);
}

#[test]
fn resolve_writes_size_once() {
    let (mut atlas, _) = load_atlas(&listed("r.png", vec![region(Some("a"), 0, 0, 2, 2)]), 8).unwrap();
    atlas.resolve(Size { width: 64, height: 64 });
    assert_eq!(atlas.size, Some(Size { width: 64, height: 64 }));
    assert_eq!(atlas.lookup("a"), Ok(0));
    assert_eq!(atlas.rects.len(), 1);
}
