use rand::rngs::StdRng;
use rand::SeedableRng;
use wfc::color::Rgba;
use wfc::grid::Grid;
use wfc::image::Image;

/// A 2x2 source pattern of four distinct solid colors.
fn four_color_pattern() -> Image {
    Image {
        width: 2,
        height: 2,
        pixels: vec![
            Rgba::new(255, 0, 0, 255),
            Rgba::new(0, 255, 0, 255),
            Rgba::new(0, 0, 255, 255),
            Rgba::new(255, 255, 0, 255),
        ],
    }
}

/// Two 3x3 tiles whose pixels never agree anywhere: no tile fits any tile
/// (itself included) in any direction.
fn incompatible_tiles() -> Vec<Image> {
    let mut t0 = Vec::new();
    let mut t1 = Vec::new();
    for y in 0..3u8 {
        for x in 0..3u8 {
            t0.push(Rgba::new(x + 3 * y, 0, 0, 255));
            t1.push(Rgba::new(x + 3 * y + 100, 0, 0, 255));
        }
    }
    vec![
        Image { width: 3, height: 3, pixels: t0 },
        Image { width: 3, height: 3, pixels: t1 },
    ]
}

#[test]
fn grid_construction_gives_every_cell_the_full_domain() {
    let img = Image::city();
    let grid = Grid::new(4, 3, &img);
    assert_eq!(grid.width(), 4);
    assert_eq!(grid.height(), 3);
    assert_eq!(grid.tile_count(), 81);
    for y in 0..3 {
        for x in 0..4 {
            let c = grid.cell_at(x, y);
            assert!(!c.is_collapsed());
            assert_eq!(c.option_count(), 81);
        }
    }
}

#[test]
fn no_op_step_when_nothing_is_eligible() {
    // A single tile: every cell starts with domain size 1, so no cell has a
    // real choice and the very first step is a no-op.
    let img = Image {
        width: 1,
        height: 1,
        pixels: vec![Rgba::new(5, 5, 5, 255)],
    };
    let mut grid = Grid::new(2, 2, &img);
    let mut rng = StdRng::seed_from_u64(1);
    let report = grid.update(&mut rng);
    assert!(report.selected.is_none());
    assert_eq!(report.visited, 0);
    assert!(report.contradictions.is_empty());
}

#[test]
fn four_distinct_colors_collapse_in_exactly_nine_steps() {
    // 1x1 tile footprints: the edge overlap is empty, every tile fits every
    // other, so propagation never removes anything and each step collapses
    // exactly one cell. A 3x3 grid therefore resolves in exactly 9 steps.
    let img = four_color_pattern();
    let mut grid = Grid::with_tile_size(3, 3, &img, 1, 1);
    assert_eq!(grid.tile_count(), 4);
    let mut rng = StdRng::seed_from_u64(7);
    let mut steps: usize = 0;
    loop {
        let report = grid.update(&mut rng);
        if report.selected.is_none() {
            break;
        }
        steps += 1;
        assert!(report.contradictions.is_empty());
        assert!(report.visited <= 9);
        assert!(steps <= 9);
    }
    assert_eq!(steps, 9);
    for y in 0..3 {
        for x in 0..3 {
            let c = grid.cell_at(x, y);
            assert!(c.is_collapsed());
            assert_eq!(c.option_count(), 1);
        }
    }
}

#[test]
fn propagation_narrows_a_neighbor_to_the_exact_compatible_subset() {
    let r = Rgba::new(200, 0, 0, 255);
    let b = Rgba::new(0, 0, 200, 255);
    // Tile 0 is solid red; tile 1 has columns (red, red, blue), so the two
    // tiles agree on some edges and disagree on others.
    let solid_red = Image { width: 3, height: 3, pixels: vec![r; 9] };
    let cols_rrb = Image {
        width: 3,
        height: 3,
        pixels: vec![r, r, b, r, r, b, r, r, b],
    };
    let tiles = vec![solid_red, cols_rrb];
    // A 1x2 vertical strip: the only adjacency is north/south.
    let mut grid = Grid::from_tiles(1, 2, tiles);
    let mut rng = StdRng::seed_from_u64(3);
    let report = grid.update(&mut rng);
    assert_eq!(report.selected, Some((0, 0)));
    let chosen = grid.cell_at(0, 0).options()[0];
    // The neighbor below must keep exactly the tiles that pass the
    // edge-overlap test against the chosen tile, and nothing else.
    let tiles_again = vec![
        Image { width: 3, height: 3, pixels: vec![r; 9] },
        Image {
            width: 3,
            height: 3,
            pixels: vec![r, r, b, r, r, b, r, r, b],
        },
    ];
    let expected: Vec<usize> = (0..2usize)
        .filter(|&j| tiles_again[j].fits(&tiles_again[chosen], (0, 1)))
        .collect();
    assert_eq!(grid.cell_at(0, 1).options(), &expected);
}

#[test]
fn contradiction_is_reported_at_the_offending_coordinate() {
    // Two tiles, two cells side by side, and no tile compatible with any
    // tile in any direction: the first collapse forces the neighbor's
    // domain to empty.
    let mut grid = Grid::from_tiles(2, 1, incompatible_tiles());
    let mut rng = StdRng::seed_from_u64(5);
    let report = grid.update(&mut rng);
    assert_eq!(report.selected, Some((0, 0)));
    assert_eq!(report.contradictions, vec![(1, 0)]);
    assert_eq!(grid.cell_at(1, 0).option_count(), 0);
    assert!(!grid.cell_at(1, 0).is_collapsed());
    // The stuck cell renders as the sentinel color.
    assert_eq!(grid.cell_at(1, 0).average_color(), Rgba::new(255, 0, 255, 255));
    // The run goes on: the next step simply finds nothing eligible.
    let next = grid.update(&mut rng);
    assert!(next.selected.is_none());
    assert!(next.contradictions.is_empty());
}

#[test]
fn fixed_seed_runs_are_deterministic() {
    let img = Image::city();
    let mut results: Vec<Vec<usize>> = Vec::new();
    for _ in 0..2 {
        let mut grid = Grid::new(5, 5, &img);
        let mut rng = StdRng::seed_from_u64(0xA11CE);
        let mut steps: usize = 0;
        loop {
            let report = grid.update(&mut rng);
            if report.selected.is_none() {
                break;
            }
            steps += 1;
            assert!(steps <= 25);
        }
        let mut assignment = Vec::new();
        for y in 0..5 {
            for x in 0..5 {
                let c = grid.cell_at(x, y);
                // Record the final domain: a single tile index, or a marker
                // for a stuck cell.
                if c.option_count() == 1 {
                    assignment.push(c.options()[0]);
                } else {
                    assignment.push(usize::MAX);
                }
            }
        }
        results.push(assignment);
    }
    assert_eq!(results[0], results[1]);
}

#[test]
fn propagation_visits_each_cell_at_most_once_per_step() {
    let img = Image::city();
    let mut grid = Grid::new(6, 6, &img);
    let mut rng = StdRng::seed_from_u64(99);
    let mut steps: usize = 0;
    loop {
        let report = grid.update(&mut rng);
        if report.selected.is_none() {
            break;
        }
        steps += 1;
        // The library counts the cells its propagation pass visited; the
        // count can never exceed the number of cells in the grid.
        assert!(report.visited <= 36);
        assert!(steps <= 36);
    }
}

#[test]
fn collapsed_cell_color_is_its_tile_center_color() {
    let img = four_color_pattern();
    let mut grid = Grid::with_tile_size(2, 2, &img, 1, 1);
    let mut rng = StdRng::seed_from_u64(21);
    let report = grid.update(&mut rng);
    let (x, y) = report.selected.unwrap();
    let cell = grid.cell_at(x, y);
    assert_eq!(cell.option_count(), 1);
    let tile_index = cell.options()[0];
    // With a 1x1 footprint a tile's center pixel is its only pixel: the
    // source pattern color at the tile's extraction position.
    let expected = img.pixels[tile_index];
    assert_eq!(cell.average_color(), expected);
}
