use bevy_pixel_world::coords::{ColorIndex, MaterialId};
use bevy_pixel_world::palette::{GlobalPalette, LutConfig};
use bevy_pixel_world::persistence::format::{FormatError, PixelBodyRecordHeader};
use bevy_pixel_world::persistence::pixel_body::{
    pack_bools, unpack_bools, PixelBodyReadError, PixelBodyRecord,
};
use bevy_pixel_world::pixel::Pixel;
use bevy_pixel_world::pixel_body::collider::build_marching_grid;
use bevy_pixel_world::pixel_body::loader::PixelBodyLoader;
use bevy_pixel_world::pixel_body::readback::apply_destroyed_pixels;
use bevy_pixel_world::pixel_body::split::{create_fragment_body, find_connected_components};
use bevy_pixel_world::pixel_body::{PixelBody, PixelBodyId};
use bevy_pixel_world::render::Rgba;

#[test]
fn pack_unpack_bools() {
    let bools = vec![true, false, true, true, false, false, true, false, true];
    let packed = pack_bools(&bools);
    let unpacked = unpack_bools(&packed, bools.len());
    assert_eq!(bools, unpacked);
}

#[test]
fn pack_bools_bit_layout() {
    let bools = vec![true, false, true, true, false, false, true, false, true];
    assert_eq!(pack_bools(&bools), vec![0b0100_1101, 0b0000_0001]);
    assert_eq!(unpack_bools(&[0b1000_0000], 10), {
        let mut v = vec![false; 10];
        v[7] = true;
        v
    });
    assert!(pack_bools(&[]).is_empty());
}

fn sample_record() -> PixelBodyRecord {
    let width = 4;
    let height = 4;
    let pixel_count = (width * height) as usize;
    PixelBodyRecord {
        stable_id: 12345,
        position: (100.5f32.to_bits(), 200.5f32.to_bits()),
        rotation: 0.5f32.to_bits(),
        linear_velocity: (10.0f32.to_bits(), (-5.0f32).to_bits()),
        angular_velocity: 0.1f32.to_bits(),
        width,
        height,
        origin: (-2, -2),
        pixel_data: vec![Pixel::new(MaterialId(1), ColorIndex(2)); pixel_count],
        shape_mask: vec![true; pixel_count],
        extension_data: vec![1, 2, 3, 4],
    }
}

#[test]
fn pixel_body_record_round_trip() {
    let record = sample_record();

    let mut buf = Vec::new();
    record.write_to(&mut buf);

    let read_record = PixelBodyRecord::read_from(&buf).unwrap();

    assert_eq!(read_record.stable_id, record.stable_id);
    assert_eq!(f32::from_bits(read_record.position.0), 100.5);
    assert_eq!(f32::from_bits(read_record.position.1), 200.5);
    assert_eq!(read_record.position, record.position);
    assert_eq!(read_record.rotation, record.rotation);
    assert_eq!(read_record.linear_velocity, record.linear_velocity);
    assert_eq!(read_record.angular_velocity, record.angular_velocity);
    assert_eq!(read_record.width, record.width);
    assert_eq!(read_record.height, record.height);
    assert_eq!(read_record.origin, record.origin);
    assert_eq!(read_record.pixel_data.len(), record.pixel_data.len());
    assert_eq!(read_record.pixel_data, record.pixel_data);
    assert_eq!(read_record.shape_mask, record.shape_mask);
    assert_eq!(read_record.extension_data, record.extension_data);
}

#[test]
fn pixel_body_record_read_errors() {
    let record = sample_record();
    let mut buf = Vec::new();
    record.write_to(&mut buf);

    // Too short for the header.
    assert!(matches!(PixelBodyRecord::read_from(&buf[..40]), Err(PixelBodyReadError::UnexpectedEof)));
    // Header intact, data cut off.
    assert!(matches!(
        PixelBodyRecord::read_from(&buf[..buf.len() - 1]),
        Err(PixelBodyReadError::UnexpectedEof)
    ));
    // A changed header field breaks the checksum.
    let mut bad = buf.clone();
    bad[0] ^= 1;
    assert!(matches!(PixelBodyRecord::read_from(&bad), Err(PixelBodyReadError::ChecksumMismatch)));

    // A header whose dimensions disagree with the pixel data.
    let mut wrong = sample_record();
    wrong.width = 3;
    wrong.shape_mask = vec![true; 12];
    let mut buf2 = Vec::new();
    wrong.write_to(&mut buf2);
    match PixelBodyRecord::read_from(&buf2) {
        Err(PixelBodyReadError::SizeMismatch { expected, actual }) => {
            assert_eq!(expected, 48);
            assert_eq!(actual, 64);
        }
        _ => panic!("expected a size mismatch"),
    }

    // Garbage in the compressed pixel block (its size prefix kept).
    let mut garbage = buf.clone();
    let block_len = u32::from_le_bytes([buf[48], buf[49], buf[50], buf[51]]) as usize;
    for b in garbage[80..76 + block_len].iter_mut() {
        *b = 0xff;
    }
    assert!(matches!(
        PixelBodyRecord::read_from(&garbage),
        Err(PixelBodyReadError::DecompressionFailed)
    ));
}

#[test]
fn pixel_body_record_to_body() {
    let mut record = sample_record();
    record.pixel_data[5] = Pixel::new(MaterialId(3), ColorIndex(9));
    record.shape_mask[5] = false;
    let body = record.to_pixel_body();
    assert_eq!(body.width(), 4);
    assert_eq!(body.origin, (-2, -2));
    assert_eq!(body.surface[5], Pixel::new(MaterialId(3), ColorIndex(9)));
    assert!(!body.is_solid(1, 1));
    assert!(body.is_solid(0, 0));
}

#[test]
fn pixel_body_basics() {
    let mut body = PixelBody::new(3, 2);
    assert_eq!(body.origin, (-1, -1));
    assert!(body.is_empty());
    body.set_pixel(2, 1, Pixel::new(MaterialId(2), ColorIndex(5)));
    assert!(body.is_solid(2, 1));
    assert_eq!(body.get_pixel(2, 1), Some(&Pixel::new(MaterialId(2), ColorIndex(5))));
    assert_eq!(body.get_pixel(3, 0), None);
    assert_eq!(body.solid_count(), 1);
    body.set_pixel(2, 1, Pixel::air());
    assert!(!body.is_solid(2, 1));
    // Out of the grid: ignored.
    body.set_solid(7, 7, true);
    assert_eq!(body.solid_count(), 0);
    assert_eq!(PixelBodyId::new(9).value(), 9);
}

fn mask_of(rows: &[&str]) -> (Vec<bool>, u32, u32) {
    // rows are given top to bottom in the picture; row 0 of the mask is the first string.
    let h = rows.len() as u32;
    let w = rows[0].len() as u32;
    let mut mask = Vec::new();
    for r in rows {
        for c in r.chars() {
            mask.push(c == '#');
        }
    }
    (mask, w, h)
}

#[test]
fn connected_components_split_and_order() {
    let (mask, w, h) = mask_of(&["##..#", "#...#", "....#", "##..."]);
    let comps = find_connected_components(&mask, w, h);
    assert_eq!(comps.len(), 3);
    // Largest first: the column of three on the right and the L of three tie,
    // then the pair at the bottom.
    assert_eq!(comps[0].pixels.len(), 3);
    assert_eq!(comps[1].pixels.len(), 3);
    assert_eq!(comps[2].pixels.len(), 2);
    let right = comps.iter().find(|c| c.pixels.contains(&(4, 0))).unwrap();
    assert_eq!(right.pixels, vec![(4, 0), (4, 1), (4, 2)]);
    assert_eq!((right.min_x, right.min_y, right.width, right.height), (4, 0, 1, 3));
    let corner = comps.iter().find(|c| c.pixels.contains(&(0, 0))).unwrap();
    assert_eq!(corner.pixels, vec![(0, 0), (1, 0), (0, 1)]);
    assert_eq!((corner.min_x, corner.min_y, corner.width, corner.height), (0, 0, 2, 2));
    let bottom = &comps[2];
    assert_eq!(bottom.pixels, vec![(0, 3), (1, 3)]);
}

#[test]
fn connected_components_edge_cases() {
    assert!(find_connected_components(&[], 0, 0).is_empty());
    assert!(find_connected_components(&[false; 6], 3, 2).is_empty());
    let comps = find_connected_components(&[true; 6], 3, 2);
    assert_eq!(comps.len(), 1);
    assert_eq!(comps[0].pixels.len(), 6);
    // Diagonal neighbours are not connected.
    let (mask, w, h) = mask_of(&["#.", ".#"]);
    assert_eq!(find_connected_components(&mask, w, h).len(), 2);
}

#[test]
fn fragment_body_copies_component_pixels() {
    let mut parent = PixelBody::new(4, 3);
    for x in 0..4 {
        parent.set_pixel(x, 1, Pixel::new(MaterialId(2), ColorIndex(x as u8)));
    }
    parent.set_pixel(3, 2, Pixel::new(MaterialId(3), ColorIndex(7)));
    let comps = find_connected_components(&parent.shape_mask, 4, 3);
    assert_eq!(comps.len(), 1);
    let frag = create_fragment_body(&parent, &comps[0]).unwrap();
    assert_eq!((frag.width(), frag.height()), (4, 2));
    assert_eq!(frag.get_pixel(1, 0), Some(&Pixel::new(MaterialId(2), ColorIndex(1))));
    assert_eq!(frag.get_pixel(3, 1), Some(&Pixel::new(MaterialId(3), ColorIndex(7))));
    assert!(!frag.is_solid(0, 1));
    assert_eq!(frag.solid_count(), 5);
}

#[test]
fn marching_grid_has_empty_border() {
    let mut body = PixelBody::new(2, 1);
    body.set_solid(1, 0, true);
    let grid = build_marching_grid(&body);
    assert_eq!(grid.len(), 3);
    assert_eq!(grid[0], vec![false; 4]);
    assert_eq!(grid[1], vec![false, false, true, false]);
    assert_eq!(grid[2], vec![false; 4]);
}

#[test]
fn destroyed_pixels_leave_the_mask() {
    let mut body = PixelBodyLoader::rectangle(3, 3, MaterialId(2));
    assert_eq!(body.solid_count(), 9);
    apply_destroyed_pixels(&mut body, &[(0, 0), (2, 2), (9, 9), (0, 0)]);
    assert_eq!(body.solid_count(), 7);
    assert!(!body.is_solid(0, 0));
    assert!(body.is_solid(1, 1));
    assert_eq!(body.surface[0], Pixel::new(MaterialId(2), ColorIndex(128)));
}

fn material_palette() -> GlobalPalette {
    // Material 2 (stone) gets eight grays: 0, 32, 64, ..., 224.
    let mut colors = vec![Rgba::new(0, 0, 0, 255); 256];
    for k in 0..8usize {
        let v = (k * 32) as u8;
        colors[16 + k] = Rgba::new(v, v, v, 255);
    }
    GlobalPalette::from_colors(colors, LutConfig::default())
}

#[test]
fn loader_rectangle_and_image() {
    let rect = PixelBodyLoader::rectangle(2, 2, MaterialId(2));
    assert_eq!(rect.solid_count(), 4);
    assert_eq!(rect.surface[3], Pixel::new(MaterialId(2), ColorIndex(128)));

    let palette = material_palette();
    assert!(PixelBodyLoader::from_image(0, 5, None, &palette).is_none());
    let empty = PixelBodyLoader::from_image(2, 2, None, &palette).unwrap();
    assert!(empty.is_empty());

    // A 2x2 RGBA image; the top image row becomes body row 1.
    let data = vec![
        65, 65, 65, 255, /* top-left, closest to 64: offset 2 */
        0, 0, 0, 10, /* top-right, transparent */
        230, 230, 230, 200, /* bottom-left, closest to 224: offset 7 */
        100, 100, 100, 128, /* bottom-right, 96: offset 3 */
    ];
    let body = PixelBodyLoader::from_image(2, 2, Some(&data), &palette).unwrap();
    assert_eq!(body.get_pixel(0, 1), Some(&Pixel::new(MaterialId(2), ColorIndex(91))));
    assert!(!body.is_solid(1, 1));
    assert_eq!(body.get_pixel(0, 0), Some(&Pixel::new(MaterialId(2), ColorIndex(255))));
    assert_eq!(body.get_pixel(1, 0), Some(&Pixel::new(MaterialId(2), ColorIndex(127))));

    // Fewer than four bytes per pixel: every cell solid at color index 128.
    let rgb = vec![0u8; 12];
    let solid = PixelBodyLoader::from_image_with_material(2, 2, Some(&rgb), MaterialId(3), &palette).unwrap();
    assert_eq!(solid.solid_count(), 4);
    assert_eq!(solid.surface[0], Pixel::new(MaterialId(3), ColorIndex(128)));
}

#[test]
fn record_header_round_trip_and_checksum() {
    let mut header = PixelBodyRecordHeader {
        stable_id: u64::MAX - 5,
        position_x: 1.5f32.to_bits(),
        position_y: (-2.25f32).to_bits(),
        rotation: 3,
        linear_velocity_x: 4,
        linear_velocity_y: 5,
        angular_velocity: 6,
        width: 7,
        height: 8,
        origin_x: -3,
        origin_y: i32::MIN,
        pixel_data_size: 9,
        shape_mask_size: 10,
        extension_data_size: 11,
        checksum: 0,
    };
    assert!(!header.validate_checksum());
    header.checksum = header.compute_checksum();
    assert!(header.validate_checksum());
    let mut buf = vec![0xaa];
    header.write_to(&mut buf);
    assert_eq!(buf.len(), 1 + PixelBodyRecordHeader::SIZE);
    assert_eq!(PixelBodyRecordHeader::read_from(&buf, 1), Ok(header));
    assert_eq!(PixelBodyRecordHeader::read_from(&buf, 2), Err(FormatError::UnexpectedEof));
    // Reserved bytes are zero.
    assert!(buf[65..].iter().all(|&b| b == 0));
}
