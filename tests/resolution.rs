use heterogeneous_atlas::atlas::load_atlas;
use heterogeneous_atlas::manifest::{ManifestDocument, RegionList};
use heterogeneous_atlas::region::{Size, SpriteRegion};
use heterogeneous_atlas::resolver::{AtlasConstructed, AtlasReady, ImageLoaded, Resolver};

fn size(width: u32, height: u32) -> Size {
    Size { width, height }
}

fn waiting(atlas: u64, image: u64) -> AtlasConstructed {
    AtlasConstructed { atlas, image, size: None }
}

fn loaded(image: u64, width: u32, height: u32) -> ImageLoaded {
    ImageLoaded { image, size: size(width, height) }
}

fn ready(atlas: u64, width: u32, height: u32) -> AtlasReady {
    AtlasReady { atlas, size: size(width, height) }
}

#[test]
fn sheet_scenario_resolves_on_image_load() {
    const SHEET: u64 = 1;
    const ATLAS: u64 = 100;
    let doc = ManifestDocument {
        path: "sheet.png".to_string(),
        width: None,
        height: None,
        sprites: RegionList::Listed(vec![
            SpriteRegion { name: Some("a".to_string()), x: 0, y: 0, w: 10, h: 10 },
            SpriteRegion { name: None, x: 10, y: 0, w: 5, h: 5 },
        ]),
    };
    let (mut atlas, _) = load_atlas(&doc, SHEET).unwrap();
    let mut resolver = Resolver::new();

    let out = resolver.step(&vec![atlas.constructed_event(ATLAS)], &vec![]);
    assert!(out.is_empty());
    assert_eq!(atlas.size, None);
    assert!(resolver.index().contains_image(SHEET));
    assert!(resolver.index().is_pending(ATLAS));
    assert!(!resolver.is_resolved(ATLAS));

    let out = resolver.step(&vec![], &vec![]);
    assert!(out.is_empty());

    let out = resolver.step(&vec![], &vec![loaded(SHEET, 64, 64)]);
    assert_eq!(out, vec![ready(ATLAS, 64, 64)]);
    for event in &out {
        atlas.resolve(event.size);
    }
    assert_eq!(atlas.size, Some(size(64, 64)));
    assert!(resolver.is_resolved(ATLAS));
    assert!(!resolver.index().contains_image(SHEET));
    assert_eq!(resolver.known_size(SHEET), Some(size(64, 64)));
}

#[test]
fn atlas_after_its_image_resolves_at_once() {
    let mut resolver = Resolver::new();
    let out = resolver.step(&vec![], &vec![loaded(7, 32, 8)]);
    assert!(out.is_empty());
    let out = resolver.step(&vec![waiting(70, 7)], &vec![]);
    assert_eq!(out, vec![ready(70, 32, 8)]);
    assert!(!resolver.index().contains_image(7));
    assert!(resolver.is_resolved(70));
}

#[test]
fn image_loaded_earlier_in_the_same_tick_order_still_joins() {
    let mut resolver = Resolver::new();
    let out = resolver.step(&vec![waiting(1, 5), waiting(2, 6)], &vec![loaded(5, 10, 20)]);
    assert_eq!(out, vec![ready(1, 10, 20)]);
    assert!(resolver.index().contains_image(6));
    assert!(!resolver.index().contains_image(5));
}

#[test]
fn many_atlases_join_on_one_image() {
    let mut resolver = Resolver::new();
    let out = resolver.step(&vec![waiting(11, 3), waiting(12, 3)], &vec![]);
    assert!(out.is_empty());
    let out = resolver.step(&vec![waiting(13, 3), waiting(20, 4)], &vec![]);
    assert!(out.is_empty());
    assert!(resolver.index().contains_image(3));
    let out = resolver.step(&vec![], &vec![loaded(3, 128, 256)]);
    assert_eq!(out, vec![ready(11, 128, 256), ready(12, 128, 256), ready(13, 128, 256)]);
    assert!(!resolver.index().contains_image(3));
    assert!(resolver.index().contains_image(4));
    assert!(resolver.is_resolved(12));
    assert!(!resolver.is_resolved(20));
}

#[test]
fn join_within_one_tick() {
    let mut resolver = Resolver::new();
    let out = resolver.step(&vec![waiting(1, 9), waiting(2, 9)], &vec![loaded(9, 4, 4)]);
    assert_eq!(out, vec![ready(1, 4, 4), ready(2, 4, 4)]);
    assert!(!resolver.index().contains_image(9));
}

#[test]
fn no_atlas_resolves_twice() {
    let mut resolver = Resolver::new();
    let out = resolver.step(&vec![waiting(1, 2), waiting(1, 2)], &vec![]);
    assert!(out.is_empty());
    let out = resolver.step(
        &vec![waiting(1, 2)],
        &vec![loaded(2, 3, 3), loaded(2, 5, 5)],
    );
    assert_eq!(out, vec![ready(1, 3, 3)]);
    let out = resolver.step(&vec![waiting(1, 2)], &vec![loaded(2, 6, 6)]);
    assert!(out.is_empty());
    assert_eq!(resolver.known_size(2), Some(size(6, 6)));
}

#[test]
fn preset_size_resolves_without_the_image() {
    let mut resolver = Resolver::new();
    let preset = AtlasConstructed { atlas: 4, image: 40, size: Some(size(16, 16)) };
    let out = resolver.step(&vec![preset], &vec![]);
    assert_eq!(out, vec![ready(4, 16, 16)]);
    assert!(!resolver.index().contains_image(40));
    let out = resolver.step(&vec![], &vec![loaded(40, 99, 99)]);
    assert!(out.is_empty());
}

#[test]
fn atlas_whose_image_never_loads_stays_waiting() {
    let mut resolver = Resolver::new();
    resolver.step(&vec![waiting(8, 80)], &vec![]);
    for _ in 0..5 {
        let out = resolver.step(&vec![], &vec![loaded(81, 1, 1)]);
        assert!(out.is_empty());
    }
    assert!(resolver.index().contains_image(80));
    assert!(resolver.index().is_pending(8));
    assert!(!resolver.is_resolved(8));
}

#[test]
fn empty_tick_changes_nothing() {
    let mut resolver = Resolver::new();
    assert!(resolver.step(&vec![], &vec![]).is_empty());
    assert_eq!(resolver.known_size(1), None);
    assert!(!resolver.index().contains_image(1));
}
