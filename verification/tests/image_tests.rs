use wfc::color::Rgba;
use wfc::direction::Direction;
use wfc::image::Image;

fn rgb(r: u8, g: u8, b: u8) -> Rgba {
    Rgba::new(r, g, b, 255)
}

fn solid(w: usize, h: usize, c: Rgba) -> Image {
    Image {
        width: w,
        height: h,
        pixels: vec![c; w * h],
    }
}

/// A 3x3 tile given as nine pixels, row-major.
fn tile3(px: [Rgba; 9]) -> Image {
    Image {
        width: 3,
        height: 3,
        pixels: px.to_vec(),
    }
}

#[test]
fn direction_offsets_match_the_documented_convention() {
    assert_eq!(Direction::North.offsets(), (0, -1));
    assert_eq!(Direction::South.offsets(), (0, 1));
    assert_eq!(Direction::East.offsets(), (-1, 0));
    assert_eq!(Direction::West.offsets(), (1, 0));
}

#[test]
fn new_image_is_black() {
    let img = Image::new(4, 2);
    assert_eq!(img.width, 4);
    assert_eq!(img.height, 2);
    assert_eq!(img.pixels.len(), 8);
    for p in &img.pixels {
        assert_eq!(*p, rgb(0, 0, 0));
    }
}

#[test]
fn city_pattern_has_border_ring_and_center_block() {
    let img = Image::city();
    assert_eq!(img.width, 9);
    assert_eq!(img.height, 9);
    let white = rgb(255, 255, 255);
    let maroon = rgb(190, 33, 55);
    let black = rgb(0, 0, 0);
    assert_eq!(img.pixels[0], white); // (0, 0)
    assert_eq!(img.pixels[8], white); // (8, 0)
    assert_eq!(img.pixels[9 * 8 + 4], white); // (4, 8)
    assert_eq!(img.pixels[9 * 4 + 4], maroon); // (4, 4)
    assert_eq!(img.pixels[9 * 2 + 2], maroon); // (2, 2)
    assert_eq!(img.pixels[9 * 1 + 1], black); // (1, 1)
    assert_eq!(img.pixels[9 * 7 + 7], black); // (7, 7)
}

#[test]
fn slices_wrap_around_toroidally() {
    let c0 = rgb(1, 0, 0);
    let c1 = rgb(2, 0, 0);
    let c2 = rgb(3, 0, 0);
    let c3 = rgb(4, 0, 0);
    let src = Image {
        width: 2,
        height: 2,
        pixels: vec![c0, c1, c2, c3],
    };
    let tiles = src.slices(2, 2);
    assert_eq!(tiles.len(), 4);
    // Tile at source position (1, 1) wraps around both edges.
    assert_eq!(tiles[3].pixels, vec![c3, c2, c1, c0]);
    // Tile at (0, 0) is the pattern itself.
    assert_eq!(tiles[0].pixels, vec![c0, c1, c2, c3]);
    // Tile at (1, 0) wraps horizontally.
    assert_eq!(tiles[1].pixels, vec![c1, c0, c3, c2]);
}

#[test]
fn slices_produce_one_tile_per_source_position() {
    let img = Image::city();
    let tiles = img.slices(3, 3);
    assert_eq!(tiles.len(), 81);
    for t in &tiles {
        assert_eq!(t.width, 3);
        assert_eq!(t.height, 3);
    }
}

#[test]
fn fits_north_means_top_rows_equal_bottom_rows() {
    let r = rgb(200, 0, 0);
    let b = rgb(0, 0, 200);
    let solid_red = solid(3, 3, r);
    // Rows: red, red, blue.
    let red_red_blue = tile3([r, r, r, r, r, r, b, b, b]);
    // Top two rows of `red_red_blue` equal the bottom two rows of
    // `solid_red`, so it fits to the north of the solid tile ...
    assert!(red_red_blue.fits(&solid_red, (0, -1)));
    // ... but the solid tile does not fit to the north of it: the relation
    // is not symmetric.
    assert!(!solid_red.fits(&red_red_blue, (0, -1)));
}

#[test]
fn fits_south_means_bottom_rows_equal_top_rows() {
    let r = rgb(200, 0, 0);
    let b = rgb(0, 0, 200);
    let solid_red = solid(3, 3, r);
    let red_red_blue = tile3([r, r, r, r, r, r, b, b, b]);
    // Bottom two rows of `red_red_blue` are (red, blue): not the top two
    // rows of the solid tile.
    assert!(!red_red_blue.fits(&solid_red, (0, 1)));
    // Bottom two rows of the solid tile are (red, red): exactly the top two
    // rows of `red_red_blue`.
    assert!(solid_red.fits(&red_red_blue, (0, 1)));
}

#[test]
fn fits_east_west_use_columns() {
    let r = rgb(200, 0, 0);
    let b = rgb(0, 0, 200);
    let solid_red = solid(3, 3, r);
    // Columns: red, red, blue.
    let cols_rrb = tile3([r, r, b, r, r, b, r, r, b]);
    // East offset (-1, 0): left two columns of `cols_rrb` equal the right
    // two columns of the solid tile.
    assert!(cols_rrb.fits(&solid_red, (-1, 0)));
    assert!(!solid_red.fits(&cols_rrb, (-1, 0)));
    // West offset (1, 0): right two columns of `cols_rrb` are (red, blue),
    // not the left two columns of the solid tile.
    assert!(!cols_rrb.fits(&solid_red, (1, 0)));
    assert!(solid_red.fits(&cols_rrb, (1, 0)));
}

#[test]
fn fits_rejects_an_invalid_direction() {
    let r = rgb(9, 9, 9);
    let a = solid(3, 3, r);
    let b = solid(3, 3, r);
    // A solid tile fits itself in every cardinal direction ...
    assert!(a.fits(&b, (0, -1)));
    assert!(a.fits(&b, (0, 1)));
    assert!(a.fits(&b, (-1, 0)));
    assert!(a.fits(&b, (1, 0)));
    // ... but any other offset is reported as incompatible.
    assert!(!a.fits(&b, (0, 0)));
    assert!(!a.fits(&b, (2, 0)));
    assert!(!a.fits(&b, (1, 1)));
}

#[test]
fn one_by_one_tiles_are_always_compatible() {
    let a = solid(1, 1, rgb(1, 2, 3));
    let b = solid(1, 1, rgb(7, 8, 9));
    // With a 1x1 footprint the edge overlap is empty, so every tile fits
    // every other in every cardinal direction.
    assert!(a.fits(&b, (0, -1)));
    assert!(a.fits(&b, (0, 1)));
    assert!(a.fits(&b, (-1, 0)));
    assert!(a.fits(&b, (1, 0)));
}
