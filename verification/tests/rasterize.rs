use voronoi_rust::{
    build_kdtree_from_sites, generate_sites, generate_voronoi_pixels, nearest_neighbor_linear,
    rasterize_rows, Color, Point, Site, VoronoiError,
};

fn points_of(sites: &[Site]) -> Vec<Point> {
    sites.iter().map(|s| s.point).collect()
}

#[test]
fn full_coverage_matches_linear_scan() {
    let width = 24usize;
    let height = 18usize;
    let sites = generate_sites(12, width, height, 99);
    let pts = points_of(&sites);
    let tree = build_kdtree_from_sites(&sites).unwrap();
    let pixels = generate_voronoi_pixels(width, height, &sites, &tree).unwrap();
    assert_eq!(pixels.len(), height);
    let mut cells = 0usize;
    for (y, row) in pixels.iter().enumerate() {
        assert_eq!(row.len(), width);
        for (x, c) in row.iter().enumerate() {
            let q = Point::new(x as i64, y as i64);
            let expected = sites[nearest_neighbor_linear(&pts, q)].color;
            assert_eq!(*c, expected);
            cells += 1;
        }
    }
    assert_eq!(cells, width * height);
}

#[test]
fn rasterization_is_deterministic() {
    let sites = generate_sites(20, 32, 32, 5);
    let tree = build_kdtree_from_sites(&sites).unwrap();
    let a = generate_voronoi_pixels(32, 32, &sites, &tree).unwrap();
    let b = generate_voronoi_pixels(32, 32, &sites, &tree).unwrap();
    assert_eq!(a, b);
}

#[test]
fn partition_independence() {
    let width = 20usize;
    let height = 16usize;
    let sites = generate_sites(9, width, height, 3);
    let tree = build_kdtree_from_sites(&sites).unwrap();
    let whole = generate_voronoi_pixels(width, height, &sites, &tree).unwrap();
    for split in 0..=height {
        let first = rasterize_rows(width, 0, split, &sites, &tree).unwrap();
        let second = rasterize_rows(width, split, height, &sites, &tree).unwrap();
        let mut joined = first;
        joined.extend(second);
        assert_eq!(joined, whole);
    }
}

#[test]
fn partition_independence_many_ranges() {
    let width = 15usize;
    let height = 12usize;
    let sites = generate_sites(6, width, height, 77);
    let tree = build_kdtree_from_sites(&sites).unwrap();
    let whole = generate_voronoi_pixels(width, height, &sites, &tree).unwrap();
    // rasterize each row on its own and concatenate
    let mut joined: Vec<Vec<Color>> = Vec::new();
    for y in 0..height {
        joined.extend(rasterize_rows(width, y, y + 1, &sites, &tree).unwrap());
    }
    assert_eq!(joined, whole);
}

#[test]
fn single_site_colors_every_cell() {
    let color = Color::new(17, 34, 51);
    let sites = vec![Site::new(Point::new(2, 2), color)];
    let tree = build_kdtree_from_sites(&sites).unwrap();
    let pixels = generate_voronoi_pixels(8, 8, &sites, &tree).unwrap();
    for row in &pixels {
        for c in row {
            assert_eq!(*c, color);
        }
    }
}

#[test]
fn mismatched_site_set_is_reported() {
    let sites = vec![
        Site::new(Point::new(0, 0), Color::new(1, 1, 1)),
        Site::new(Point::new(5, 0), Color::new(2, 2, 2)),
        Site::new(Point::new(10, 0), Color::new(3, 3, 3)),
    ];
    let tree = build_kdtree_from_sites(&sites).unwrap();
    // hand the rasterizer fewer sites than the index was built from:
    // cells near (10, 0) resolve to position 2, which is out of range
    let truncated = vec![sites[0]];
    let r = generate_voronoi_pixels(11, 1, &truncated, &tree);
    assert_eq!(r, Err(VoronoiError::SiteIndexOutOfRange));
}

#[test]
fn scenario_diagonal_tie_break() {
    let red = Color::new(255, 0, 0);
    let blue = Color::new(0, 0, 255);
    let sites = vec![
        Site::new(Point::new(0, 0), red),
        Site::new(Point::new(3, 3), blue),
    ];
    let tree = build_kdtree_from_sites(&sites).unwrap();
    let pixels = generate_voronoi_pixels(4, 4, &sites, &tree).unwrap();
    for y in 0..4i64 {
        for x in 0..4i64 {
            let c = pixels[y as usize][x as usize];
            // cells strictly nearer (0,0) are red, strictly nearer
            // (3,3) are blue; on the equidistant diagonal x + y == 3
            // the lowest-index site wins, so those cells are red
            if x + y <= 3 {
                assert_eq!(c, red, "cell ({}, {})", x, y);
            } else {
                assert_eq!(c, blue, "cell ({}, {})", x, y);
            }
        }
    }
}

#[test]
fn empty_grid_dimensions_yield_empty_buffer() {
    let sites = generate_sites(4, 10, 10, 2);
    let tree = build_kdtree_from_sites(&sites).unwrap();
    let no_rows = generate_voronoi_pixels(10, 0, &sites, &tree).unwrap();
    assert!(no_rows.is_empty());
    let empty_rows = generate_voronoi_pixels(0, 10, &sites, &tree).unwrap();
    assert_eq!(empty_rows.len(), 10);
    for row in &empty_rows {
        assert!(row.is_empty());
    }
}
