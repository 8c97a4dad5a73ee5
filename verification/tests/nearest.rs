use voronoi_rust::{
    build_kdtree_from_sites, generate_sites, nearest_neighbor_linear, Color, Point, Site,
};

fn points_of(sites: &[Site]) -> Vec<Point> {
    sites.iter().map(|s| s.point).collect()
}

#[test]
fn empty_site_set_builds_no_index() {
    let sites: Vec<Site> = Vec::new();
    assert!(build_kdtree_from_sites(&sites).is_none());
}

#[test]
fn nonempty_site_set_builds_an_index() {
    let sites = generate_sites(5, 10, 10, 1);
    assert!(build_kdtree_from_sites(&sites).is_some());
}

#[test]
fn single_site_always_wins() {
    let sites = vec![Site::new(Point::new(3, 4), Color::new(1, 2, 3))];
    let tree = build_kdtree_from_sites(&sites).unwrap();
    for x in 0..20 {
        for y in 0..20 {
            assert_eq!(tree.nearest_neighbor(Point::new(x, y)), 0);
        }
    }
}

#[test]
fn matches_linear_scan_on_randomized_configurations() {
    let mut checked = 0usize;
    for seed in 0..25u64 {
        for &count in &[1usize, 2, 3, 7, 25, 60] {
            let sites = generate_sites(count, 40, 30, seed);
            let pts = points_of(&sites);
            let tree = build_kdtree_from_sites(&sites).unwrap();
            let mut y = 0i64;
            while y < 30 {
                let mut x = 0i64;
                while x < 40 {
                    let q = Point::new(x, y);
                    assert_eq!(tree.nearest_neighbor(q), nearest_neighbor_linear(&pts, q));
                    checked += 1;
                    x += 3;
                }
                y += 3;
            }
        }
    }
    assert!(checked >= 10_000);
}

#[test]
fn matches_linear_scan_with_duplicate_positions() {
    for seed in 0..40u64 {
        // a 3x3 grid with 30 sites forces duplicate positions
        let sites = generate_sites(30, 3, 3, seed);
        let pts = points_of(&sites);
        let tree = build_kdtree_from_sites(&sites).unwrap();
        for x in -2..6i64 {
            for y in -2..6i64 {
                let q = Point::new(x, y);
                assert_eq!(tree.nearest_neighbor(q), nearest_neighbor_linear(&pts, q));
            }
        }
    }
}

#[test]
fn equidistant_sites_resolve_to_lowest_index() {
    let sites = vec![
        Site::new(Point::new(0, 0), Color::new(255, 0, 0)),
        Site::new(Point::new(2, 0), Color::new(0, 0, 255)),
    ];
    let tree = build_kdtree_from_sites(&sites).unwrap();
    // (1, 0) is at squared distance 1 from both sites
    assert_eq!(tree.nearest_neighbor(Point::new(1, 0)), 0);
}

#[test]
fn duplicate_sites_resolve_to_lowest_index() {
    let sites = vec![
        Site::new(Point::new(5, 5), Color::new(10, 10, 10)),
        Site::new(Point::new(5, 5), Color::new(20, 20, 20)),
        Site::new(Point::new(5, 5), Color::new(30, 30, 30)),
    ];
    let tree = build_kdtree_from_sites(&sites).unwrap();
    for x in 0..10 {
        for y in 0..10 {
            assert_eq!(tree.nearest_neighbor(Point::new(x, y)), 0);
        }
    }
}

#[test]
fn nearest_handles_negative_coordinates() {
    let sites = vec![
        Site::new(Point::new(-8, -3), Color::new(1, 1, 1)),
        Site::new(Point::new(4, 9), Color::new(2, 2, 2)),
    ];
    let pts = points_of(&sites);
    let tree = build_kdtree_from_sites(&sites).unwrap();
    for x in -12..12i64 {
        for y in -12..12i64 {
            let q = Point::new(x, y);
            assert_eq!(tree.nearest_neighbor(q), nearest_neighbor_linear(&pts, q));
        }
    }
}
