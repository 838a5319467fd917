use cotar::error::CotarError;
use cotar::fnv1a::fnv1a_64;
use cotar::mbtiles::{
    check_convert_options, flip_y, format_from_metadata, has_suffix, is_gzip, plan_tile,
    tile_path, TileAction, TileHashTree,
};

#[test]
fn gzip_magic_is_detected() {
    assert!(is_gzip(&[0x1f, 0x8b]));
    assert!(is_gzip(&[0x1f, 0x8b, 0x08, 0x00]));
    assert!(!is_gzip(&[0x1f]));
    assert!(!is_gzip(&[]));
    assert!(!is_gzip(&[0x8b, 0x1f, 0x00]));
}

#[test]
fn y_is_flipped_within_the_zoom() {
    assert_eq!(flip_y(0, 0), Some(0));
    assert_eq!(flip_y(1, 0), Some(1));
    assert_eq!(flip_y(3, 2), Some(5));
    assert_eq!(flip_y(31, 0), Some(0x7fff_ffff));
    assert_eq!(flip_y(3, 8), None);
    assert_eq!(flip_y(32, 0), None);
}

#[test]
fn tile_paths_follow_the_layout() {
    assert_eq!(tile_path(8, 247, 108, "pbf", true), "tiles/8/247/108.pbf.gz");
    assert_eq!(tile_path(0, 0, 0, "png", false), "tiles/0/0/0.png");
    assert_eq!(tile_path(12, 4095, 10, "pbf", false), "tiles/12/4095/10.pbf");
}

#[test]
fn format_comes_from_metadata() {
    assert_eq!(format_from_metadata(&Vec::new()), "pbf");
    let rows = vec![
        ("name".to_string(), "topo".to_string()),
        ("format".to_string(), "png".to_string()),
        ("bounds".to_string(), "0,0,1,1".to_string()),
    ];
    assert_eq!(format_from_metadata(&rows), "png");
    let no_format = vec![("name".to_string(), "format".to_string())];
    assert_eq!(format_from_metadata(&no_format), "pbf");
}

#[test]
fn convert_options_are_checked() {
    assert_eq!(check_convert_options("a.mbtiles", "b.tar", true, false), Ok(()));
    assert_eq!(check_convert_options("a.mbtiles", "b.tar", true, true), Ok(()));
    assert_eq!(check_convert_options("a.mbtiles", "b.tar", false, false), Ok(()));
    assert_eq!(
        check_convert_options("a.sqlite", "b.tar", true, false),
        Err(CotarError::ConverterInputMismatch)
    );
    assert_eq!(
        check_convert_options("a.mbtiles", "b.zip", true, false),
        Err(CotarError::ConverterInputMismatch)
    );
    assert_eq!(
        check_convert_options("a.mbtiles", "b.tar", false, true),
        Err(CotarError::ConflictingOptions)
    );
    assert!(has_suffix("x.tar", ".tar"));
    assert!(!has_suffix("tar", ".tar"));
    assert!(has_suffix("", ""));
}

#[test]
fn tree_remembers_first_path() {
    let mut tree = TileHashTree::new();
    assert_eq!(tree.len(), 0);
    assert_eq!(tree.insert(10, 99, "tiles/0/0/0.pbf"), None);
    assert_eq!(tree.insert(10, 99, "tiles/1/0/0.pbf"), Some("tiles/0/0/0.pbf".to_string()));
    assert_eq!(tree.insert(11, 99, "tiles/1/1/0.pbf"), None);
    assert_eq!(tree.insert(10, 98, "tiles/1/1/1.pbf"), None);
    assert_eq!(tree.len(), 3);
}

#[test]
fn duplicate_tiles_become_links_or_drops() {
    let mut tree = TileHashTree::new();
    let data = b"same payload";
    assert_eq!(plan_tile(&mut tree, "tiles/0/0/0.pbf", data, true, false), TileAction::Write);
    assert_eq!(
        plan_tile(&mut tree, "tiles/1/0/0.pbf", data, true, false),
        TileAction::Link("tiles/0/0/0.pbf".to_string())
    );
    assert_eq!(plan_tile(&mut tree, "tiles/1/0/1.pbf", data, true, true), TileAction::Drop);
    assert_eq!(plan_tile(&mut tree, "tiles/1/1/1.pbf", b"other", true, false), TileAction::Write);
    assert_eq!(plan_tile(&mut tree, "tiles/1/1/0.pbf", data, false, false), TileAction::Write);
    assert_eq!(tree.len(), 2);
    assert_eq!(
        tree.insert(data.len(), fnv1a_64(data), "x"),
        Some("tiles/0/0/0.pbf".to_string())
    );
}
