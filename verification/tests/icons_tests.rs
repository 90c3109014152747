use graphio_extractor::assembly::transform_data;
use graphio_extractor::model::{Icon, TileMetadata};
use graphio_extractor::icons::{
    ceil_sqrt, combine_image, dedup_images, icon_names, pack_atlas, transform_icons, RgbImage,
    RgbaImage,
};
use graphio_extractor::symbols::SymbolTable;
use graphio_extractor::Error;

fn rgb1(r: u8, g: u8, b: u8) -> RgbImage {
    RgbImage { width: 1, height: 1, pixels: vec![r, g, b] }
}

fn rgb_tile(v: u8) -> RgbImage {
    RgbImage { width: 32, height: 32, pixels: vec![v; 32 * 32 * 3] }
}

fn rgba_tile(v: u8) -> RgbaImage {
    RgbaImage { width: 32, height: 32, pixels: vec![v; 32 * 32 * 4] }
}

#[test]
fn alpha_recovery_recovers_half_transparent_grey() {
    // Dark render (64,64,64) and light render (191,191,191) come from
    // a mid-grey at roughly half opacity.
    let out = combine_image(&rgb1(64, 64, 64), &rgb1(191, 191, 191));
    assert_eq!(out.pixels, vec![128, 128, 128, 128]);
}

#[test]
fn alpha_recovery_full_transparency_is_blank() {
    let out = combine_image(&rgb1(0, 0, 0), &rgb1(255, 255, 255));
    assert_eq!(out.pixels, vec![255, 255, 255, 0]);
}

#[test]
fn alpha_recovery_opaque_pixel_keeps_its_color() {
    let out = combine_image(&rgb1(200, 10, 10), &rgb1(200, 10, 10));
    assert_eq!(out.pixels, vec![200, 10, 10, 255]);
}

#[test]
fn icon_dedup_shares_slots_for_identical_content() {
    let images = vec![rgba_tile(1), rgba_tile(2), rgba_tile(1)];
    let (idx, unique) = dedup_images(&images);
    assert_eq!(idx, vec![0, 1, 0]);
    assert_eq!(unique.len(), 2);
    assert_eq!(unique[0].pixels, images[0].pixels);
    assert_eq!(unique[1].pixels, images[1].pixels);
}

#[test]
fn ceil_sqrt_matches_exact_and_inexact_squares() {
    assert_eq!(ceil_sqrt(1), 1);
    assert_eq!(ceil_sqrt(4), 2);
    assert_eq!(ceil_sqrt(5), 3);
    assert_eq!(ceil_sqrt(9), 3);
    assert_eq!(ceil_sqrt(10), 4);
}

#[test]
fn atlas_geometry_for_ten_tiles() {
    // Ten unique tiles pack into 4 columns and 3 rows.
    let tiles: Vec<RgbaImage> = (0..10).map(|v| rgba_tile(v as u8)).collect();
    let (atlas, tm) = pack_atlas(&tiles);
    assert_eq!(tm.tile_size, (32, 32));
    assert_eq!(tm.tile_count, 10);
    assert_eq!(tm.image_size, (128, 96));
    assert_eq!(atlas.width, 128);
    assert_eq!(atlas.height, 96);
    // Tile 7 (0-indexed) sits in cell (3, 1): its first byte is at
    // row 32, column 96.
    let pos = ((32 * 128) + 96) * 4;
    assert_eq!(atlas.pixels[pos], 7);
    // The cell after the last tile is blank.
    let blank = ((64 * 128) + 64) * 4;
    assert_eq!(atlas.pixels[blank], 0);
}

#[test]
fn icon_position_derives_from_index_and_geometry() {
    let tm = TileMetadata { tile_size: (32, 32), tile_count: 10, image_size: (128, 96) };
    let icon = Icon::new(7);
    assert_eq!(icon.index(), 7);
    assert_eq!(icon.position(&tm), (96, 32));
}

fn tiny_model(table: &mut SymbolTable) -> graphio_extractor::model::GameData {
    let meta = |name: &str| {
        vec![format!("k\u{1f}{}", name), "d\u{1f}Unknown key: \"d\"".to_string()]
    };
    let mut lines = vec!["1\u{1f}0\u{1f}0\u{1f}2\u{1f}0".to_string()];
    lines.push("press".to_string());
    lines.extend(meta("press"));
    lines.extend(["1", "1", "1", "1"].iter().map(|s| s.to_string()));
    lines.push("1111".to_string());
    for id in ["beta-item", "alpha-item"] {
        lines.push(id.to_string());
        lines.extend(meta(id));
        lines.push("0".to_string());
    }
    let bytes: Vec<Vec<u8>> = lines.into_iter().map(|s| s.into_bytes()).collect();
    transform_data(bytes, table).unwrap()
}

#[test]
fn icon_names_sorts_by_resolved_text() {
    let mut table = SymbolTable::new();
    let gd = tiny_model(&mut table);
    let names = icon_names(&gd, &table);
    assert_eq!(names.items.len(), 2);
    assert_eq!(table.resolve(names.items[0]), b"alpha-item");
    assert_eq!(table.resolve(names.items[1]), b"beta-item");
    assert_eq!(names.entities.len(), 1);
    assert_eq!(table.resolve(names.entities[0]), b"press");
}

#[test]
fn transform_icons_attaches_slots_and_geometry() {
    let mut table = SymbolTable::new();
    let gd = tiny_model(&mut table);
    let names = icon_names(&gd, &table);
    // Three renders: alpha-item, beta-item, press.  The two items get
    // identical content and must share a slot.
    let dark = vec![rgb_tile(10), rgb_tile(10), rgb_tile(20)];
    let light = vec![rgb_tile(10), rgb_tile(10), rgb_tile(20)];
    let (gd2, atlas) = transform_icons(gd, &names, &dark, &light).unwrap();
    let tm = gd2.tile_metadata.unwrap();
    assert_eq!(tm.tile_size, (32, 32));
    assert_eq!(tm.tile_count, 2);
    assert_eq!(tm.image_size, (64, 32));
    assert_eq!(atlas.width, 64);
    assert_eq!(atlas.height, 32);
    // beta-item and alpha-item share the first slot; press has the
    // second.
    let beta = &gd2.items[0];
    let alpha = &gd2.items[1];
    assert_eq!(table.resolve(beta.id.0), b"beta-item");
    assert_eq!(beta.metadata.icon.unwrap().index(), 0);
    assert_eq!(alpha.metadata.icon.unwrap().index(), 0);
    assert_eq!(gd2.machines[0].metadata.icon.unwrap().index(), 1);
}

#[test]
fn transform_icons_rejects_wrong_tile_size() {
    let mut table = SymbolTable::new();
    let gd = tiny_model(&mut table);
    let names = icon_names(&gd, &table);
    let mut dark = vec![rgb_tile(1), rgb_tile(2), rgb_tile(3)];
    dark[1] = RgbImage { width: 16, height: 16, pixels: vec![0; 16 * 16 * 3] };
    let light = vec![rgb_tile(1), rgb_tile(2), rgb_tile(3)];
    assert!(matches!(
        transform_icons(gd, &names, &dark, &light),
        Err(Error::ImageDimensionMismatch)
    ));
}

#[test]
fn transform_icons_rejects_empty_input() {
    let mut table = SymbolTable::new();
    let lines: Vec<Vec<u8>> = vec!["0\u{1f}0\u{1f}0\u{1f}0\u{1f}0".to_string().into_bytes()];
    let gd = transform_data(lines, &mut table).unwrap();
    let names = icon_names(&gd, &table);
    let dark: Vec<RgbImage> = vec![];
    let light: Vec<RgbImage> = vec![];
    assert!(matches!(
        transform_icons(gd, &names, &dark, &light),
        Err(Error::EmptyDataSet)
    ));
}

#[test]
fn icon_names_lists_a_shared_entity_id_once() {
    let meta = |name: &str| {
        vec![format!("k\u{1f}{}", name), "d\u{1f}Unknown key: \"d\"".to_string()]
    };
    // One machine and one beacon carrying the same ID text.
    let mut lines = vec!["1\u{1f}1\u{1f}0\u{1f}0\u{1f}0".to_string()];
    lines.push("shared".to_string());
    lines.extend(meta("shared"));
    lines.extend(["1", "1", "1", "1"].iter().map(|s| s.to_string()));
    lines.push("1111".to_string());
    lines.push("shared".to_string());
    lines.extend(meta("shared"));
    lines.push("0.5".to_string());
    lines.push("1111".to_string());
    let bytes: Vec<Vec<u8>> = lines.into_iter().map(|s| s.into_bytes()).collect();
    let mut table = SymbolTable::new();
    let gd = transform_data(bytes, &mut table).unwrap();
    let names = icon_names(&gd, &table);
    assert_eq!(names.entities.len(), 1);
    assert_eq!(table.resolve(names.entities[0]), b"shared");
}
