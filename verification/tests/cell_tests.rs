use rand::rngs::StdRng;
use rand::SeedableRng;
use wfc::adjacency::compute_adjacencies;
use wfc::cell::Cell;
use wfc::color::Rgba;
use wfc::direction::Direction;
use wfc::image::Image;

fn solid_tile(c: Rgba) -> Image {
    Image {
        width: 3,
        height: 3,
        pixels: vec![c; 9],
    }
}

/// Two tiles whose pixels never agree anywhere, so no pair of them (in any
/// order, in any direction) passes the edge-overlap test.
fn hostile_tiles() -> Vec<Image> {
    let mut t0 = Vec::new();
    let mut t1 = Vec::new();
    for y in 0..3u8 {
        for x in 0..3u8 {
            t0.push(Rgba::new(x + 3 * y, 0, 0, 255));
            t1.push(Rgba::new(x + 3 * y + 100, 0, 0, 255));
        }
    }
    vec![
        Image { width: 3, height: 3, pixels: t0 },
        Image { width: 3, height: 3, pixels: t1 },
    ]
}

#[test]
fn new_cell_holds_the_full_domain() {
    let c = Cell::new(5);
    assert_eq!(c.option_count(), 5);
    assert_eq!(c.options(), &vec![0, 1, 2, 3, 4]);
    assert!(!c.is_collapsed());
}

#[test]
fn collapse_picks_one_surviving_index() {
    let mut rng = StdRng::seed_from_u64(11);
    let mut c = Cell::new(4);
    c.collapse(&mut rng);
    assert!(c.is_collapsed());
    assert_eq!(c.option_count(), 1);
    assert!(c.options()[0] < 4);
}

#[test]
fn collapse_is_idempotent_on_a_collapsed_cell() {
    let mut rng = StdRng::seed_from_u64(12);
    let mut c = Cell::new(4);
    c.collapse(&mut rng);
    let first = c.options().clone();
    c.collapse(&mut rng);
    assert!(c.is_collapsed());
    assert_eq!(c.options(), &first);
}

#[test]
fn reduce_keeps_exactly_the_compatible_subset() {
    let r = Rgba::new(200, 0, 0, 255);
    let b = Rgba::new(0, 0, 200, 255);
    let solid_red = solid_tile(r);
    // Rows: red, red, blue.
    let red_red_blue = Image {
        width: 3,
        height: 3,
        pixels: vec![r, r, r, r, r, r, b, b, b],
    };
    let tiles = vec![solid_red, red_red_blue];
    let table = compute_adjacencies(&tiles);
    // The neighbor's domain holds only tile 0 (the solid tile).
    let neighbor = Cell::new(1);
    let mut cell = Cell::new(2);
    // South of the solid tile: only a tile whose bottom two rows are solid
    // red survives, which rules out tile 1.
    cell.reduce_options(&neighbor, Direction::South, &table);
    assert_eq!(cell.options(), &vec![0]);
    // Shrinking to a single option collapses the cell incidentally.
    assert!(cell.is_collapsed());
}

#[test]
fn reduce_keeps_everything_when_all_pairs_fit() {
    let solid_red = solid_tile(Rgba::new(200, 0, 0, 255));
    let tiles = vec![solid_red.clone(), solid_red];
    let table = compute_adjacencies(&tiles);
    let neighbor = Cell::new(2);
    let mut cell = Cell::new(2);
    cell.reduce_options(&neighbor, Direction::North, &table);
    assert_eq!(cell.options(), &vec![0, 1]);
    assert!(!cell.is_collapsed());
}

#[test]
fn reduce_never_grows_the_domain() {
    let tiles = hostile_tiles();
    let table = compute_adjacencies(&tiles);
    let neighbor = Cell::new(2);
    let mut cell = Cell::new(2);
    let mut last = cell.option_count();
    for dir in [Direction::North, Direction::East, Direction::South, Direction::West] {
        cell.reduce_options(&neighbor, dir, &table);
        assert!(cell.option_count() <= last);
        last = cell.option_count();
    }
}

#[test]
fn reduce_against_incompatible_tiles_empties_the_domain() {
    let tiles = hostile_tiles();
    let table = compute_adjacencies(&tiles);
    let neighbor = Cell::new(2);
    let mut cell = Cell::new(2);
    cell.reduce_options(&neighbor, Direction::West, &table);
    assert_eq!(cell.option_count(), 0);
    // An empty domain is a contradiction, not a collapse.
    assert!(!cell.is_collapsed());
}

#[test]
fn reduce_is_a_no_op_on_a_collapsed_cell() {
    let tiles = hostile_tiles();
    let table = compute_adjacencies(&tiles);
    let mut rng = StdRng::seed_from_u64(13);
    let mut cell = Cell::new(2);
    cell.collapse(&mut rng);
    let kept = cell.options().clone();
    let neighbor = Cell::new(2);
    cell.reduce_options(&neighbor, Direction::North, &table);
    assert_eq!(cell.options(), &kept);
    assert!(cell.is_collapsed());
}

#[test]
fn collapsed_cells_always_hold_exactly_one_index() {
    let mut rng = StdRng::seed_from_u64(14);
    for n in 1..6usize {
        let mut c = Cell::new(n);
        c.collapse(&mut rng);
        assert!(c.is_collapsed());
        assert_eq!(c.option_count(), 1);
    }
}

#[test]
fn update_color_averages_the_center_pixels() {
    let tiles = vec![
        solid_tile(Rgba::new(10, 20, 30, 255)),
        solid_tile(Rgba::new(20, 40, 60, 255)),
    ];
    let mut cell = Cell::new(2);
    cell.update_color(&tiles);
    assert_eq!(cell.average_color(), Rgba::new(15, 30, 45, 255));
}

#[test]
fn update_color_marks_an_empty_domain_with_the_sentinel() {
    let tiles = hostile_tiles();
    let table = compute_adjacencies(&tiles);
    let neighbor = Cell::new(2);
    let mut cell = Cell::new(2);
    cell.reduce_options(&neighbor, Direction::North, &table);
    assert_eq!(cell.option_count(), 0);
    cell.update_color(&tiles);
    assert_eq!(cell.average_color(), Rgba::new(255, 0, 255, 255));
}

#[test]
fn adjacency_lookup_is_false_out_of_range() {
    let tiles = hostile_tiles();
    let table = compute_adjacencies(&tiles);
    assert!(!table.allows(2, Direction::North, 0));
    assert!(!table.allows(0, Direction::North, 2));
    assert_eq!(table.tile_count(), 2);
}

#[test]
fn adjacency_table_matches_the_pairwise_fit_tests() {
    let r = Rgba::new(200, 0, 0, 255);
    let b = Rgba::new(0, 0, 200, 255);
    let solid_red = solid_tile(r);
    let red_red_blue = Image {
        width: 3,
        height: 3,
        pixels: vec![r, r, r, r, r, r, b, b, b],
    };
    let tiles = vec![solid_red, red_red_blue];
    let table = compute_adjacencies(&tiles);
    for dir in [Direction::North, Direction::South, Direction::East, Direction::West] {
        for i in 0..2usize {
            for j in 0..2usize {
                assert_eq!(
                    table.allows(i, dir, j),
                    tiles[i].fits(&tiles[j], dir.offsets())
                );
            }
        }
    }
}
