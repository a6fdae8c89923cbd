use bevy_pixel_world::coords::MaterialId;
use bevy_pixel_world::material::Materials;
use bevy_pixel_world::palette::{
    colors_from_hex, colors_from_image, compress_lut, decompress_lut, load_lut_from_bytes,
    palette_hash, palettize_image, palettize_image_in_place, parse_hex_color, save_lut_to_bytes,
    upload_palette, GlobalPalette, LutConfig, LUT_SIZE,
};
use bevy_pixel_world::render::Rgba;

#[test]
fn lut_compression_roundtrip() {
    // Create a simple LUT pattern
    let mut lut = vec![0u8; 16_777_216];
    for (i, v) in lut.iter_mut().enumerate() {
        *v = (i % 256) as u8;
    }

    // Compress
    let compressed = compress_lut(&lut);
    assert!(compressed.len() < 16_777_216, "Compression should reduce size");

    // Decompress
    let decompressed = decompress_lut(&compressed).expect("Decompression should succeed");

    // Verify roundtrip
    assert_eq!(lut.as_slice(), decompressed.as_slice());
}

#[test]
fn lut_save_load_roundtrip() {
    // Create test data
    let mut lut = vec![0u8; 16_777_216];
    for (i, v) in lut.iter_mut().enumerate() {
        *v = ((i * 7) % 256) as u8;
    }
    let test_hash = 0x1234567890abcdef_u64;

    // Save to bytes
    let bytes = save_lut_to_bytes(&lut, test_hash);

    // Load from bytes
    let (loaded_lut, loaded_hash) = load_lut_from_bytes(&bytes).expect("Load should succeed");

    // Verify
    assert_eq!(loaded_hash, test_hash);
    assert_eq!(lut.as_slice(), loaded_lut.as_slice());
}

#[test]
fn palette_hash_consistency() {
    let colors = [Rgba::new(1, 2, 3, 255); 256];
    let config = LutConfig::default();

    let hash1 = palette_hash(&colors, &config);
    let hash2 = palette_hash(&colors, &config);

    assert_eq!(hash1, hash2, "Same input should produce same hash");
}

#[test]
fn palette_hash_changes_with_color() {
    let colors1 = [Rgba::new(1, 2, 3, 255); 256];
    let mut colors2 = colors1;
    colors2[0] = Rgba::new(4, 5, 6, 255);
    let config = LutConfig::default();

    let hash1 = palette_hash(&colors1, &config);
    let hash2 = palette_hash(&colors2, &config);

    assert_ne!(hash1, hash2, "Different colors should produce different hash");
}

#[test]
fn decompress_lut_rejects_garbage_and_wrong_size() {
    assert!(decompress_lut(&[1, 2]).is_none());
    let small = compress_lut_of_len(100);
    assert!(decompress_lut(&small).is_none());
    assert!(load_lut_from_bytes(&[0u8; 7]).is_none());
}

fn compress_lut_of_len(n: usize) -> Vec<u8> {
    // A valid compressed block of the wrong size, made with the same format.
    let mut lut = vec![0u8; LUT_SIZE];
    lut[0] = 1;
    let full = compress_lut(&lut);
    // Replace the size prefix by a smaller one: decompression then fails or
    // yields a block of the wrong length.
    let mut bytes = full.clone();
    let len = (n as u32).to_le_bytes();
    bytes[..4].copy_from_slice(&len);
    bytes
}

#[test]
fn parse_hex_color_cases() {
    assert_eq!(parse_hex_color("#FF8000"), Some(Rgba::new(255, 128, 0, 255)));
    assert_eq!(parse_hex_color("ff8000"), Some(Rgba::new(255, 128, 0, 255)));
    assert_eq!(parse_hex_color("#10203040"), Some(Rgba::new(0x10, 0x20, 0x30, 0x40)));
    assert_eq!(parse_hex_color("#12345"), None);
    assert_eq!(parse_hex_color("#GG0000"), None);
    assert_eq!(parse_hex_color(""), None);
    assert_eq!(parse_hex_color("+f+f+f"), None);
    assert_eq!(parse_hex_color("#+f0000"), None);
    assert_eq!(parse_hex_color("ff€0"), None);
}

#[test]
fn colors_from_hex_pads_with_black() {
    let hex = vec!["#FF0000".to_string(), "nope".to_string(), "#00FF00".to_string()];
    let colors = colors_from_hex(&hex);
    assert_eq!(colors.len(), 256);
    assert_eq!(colors[0], Rgba::new(255, 0, 0, 255));
    assert_eq!(colors[1], Rgba::new(0, 0, 0, 255));
    assert_eq!(colors[2], Rgba::new(0, 255, 0, 255));
    assert_eq!(colors[255], Rgba::new(0, 0, 0, 255));
}

#[test]
fn colors_from_image_reads_first_pixels() {
    let mut data = Vec::new();
    for i in 0..300u32 {
        data.extend_from_slice(&[(i % 256) as u8, 1, 2, 3]);
    }
    let colors = colors_from_image(300, 1, Some(&data));
    assert_eq!(colors.len(), 256);
    assert_eq!(colors[5], Rgba::new(5, 1, 2, 3));
    let none = colors_from_image(0, 0, None);
    assert_eq!(none.len(), 256);
}

#[test]
fn palette_map_rgb_needs_lut() {
    let colors: Vec<Rgba> = (0..256).map(|i| Rgba::new(i as u8, 0, 0, 255)).collect();
    let mut palette = GlobalPalette::from_colors(colors, LutConfig::default());
    assert!(!palette.lut_ready());
    assert_eq!(palette.map_rgb(1, 2, 3), None);
    let mut lut = vec![0u8; LUT_SIZE];
    lut[(1 << 16) | (2 << 8) | 3] = 42;
    palette.set_lut_from_cache(lut, 99);
    assert!(palette.lut_ready());
    assert_eq!(palette.map_rgb(1, 2, 3), Some(42));
    assert_eq!(palette.lut_hash(), Some(99));
    assert_eq!(palette.color(42), Rgba::new(42, 0, 0, 255));
}

#[test]
fn palette_from_materials_places_eight_colors_each() {
    let materials = Materials::new();
    let palette = GlobalPalette::from_materials(&materials, LutConfig::default());
    let stone = materials.get(MaterialId(2));
    for k in 0..8u8 {
        assert_eq!(palette.color(16 + k), stone.palette[k as usize]);
    }
}

#[test]
fn upload_palette_writes_rgba_where_it_fits() {
    let colors: Vec<Rgba> = (0..256).map(|i| Rgba::new(i as u8, 1, 2, 3)).collect();
    let palette = GlobalPalette::from_colors(colors, LutConfig::default());
    let mut data = vec![9u8; 10];
    upload_palette(&palette, &mut data);
    assert_eq!(data, vec![0, 1, 2, 3, 1, 1, 2, 3, 9, 9]);
}

#[test]
fn palettize_image_maps_rgb_and_keeps_alpha() {
    let colors: Vec<Rgba> = (0..256).map(|i| Rgba::new(i as u8, 100, 200, 255)).collect();
    let mut palette = GlobalPalette::from_colors(colors, LutConfig::default());
    let data = vec![1u8, 2, 3, 77, 4, 5, 6, 88];
    // Without a LUT nothing happens.
    let mut unchanged = data.clone();
    assert_eq!(palettize_image_in_place(2, 1, &mut unchanged, &palette), None);
    assert_eq!(unchanged, data);
    assert_eq!(palettize_image(2, 1, &data, &palette), None);
    // Nor on an empty image, or one with fewer than three bytes per pixel.
    let mut empty: Vec<u8> = Vec::new();
    assert_eq!(palettize_image_in_place(0, 0, &mut empty, &palette), None);
    let mut short = vec![1u8, 2, 3, 4];
    assert_eq!(palettize_image_in_place(2, 1, &mut short, &palette), None);
    assert_eq!(short, vec![1, 2, 3, 4]);

    let mut lut = vec![0u8; LUT_SIZE];
    lut[(1 << 16) | (2 << 8) | 3] = 10;
    lut[(4 << 16) | (5 << 8) | 6] = 20;
    palette.set_lut_from_cache(lut, 1);
    let out = palettize_image(2, 1, &data, &palette).unwrap();
    assert_eq!(out, vec![10, 100, 200, 77, 20, 100, 200, 88]);

    // Fewer than three bytes per pixel: left as is.
    let mut two = vec![1u8, 2, 3, 4];
    assert_eq!(palettize_image_in_place(2, 1, &mut two, &palette), Some(()));
    assert_eq!(two, vec![1, 2, 3, 4]);
}

#[test]
fn default_palette_is_a_gray_ramp() {
    let palette = GlobalPalette::default();
    assert!(!palette.lut_ready());
    assert_eq!(palette.color(0), Rgba::new(0, 0, 0, 255));
    assert_eq!(palette.color(200), Rgba::new(200, 200, 200, 255));
    assert_eq!(palette.lut_hash(), None);
}
