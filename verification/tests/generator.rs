use voronoi_rust::generate_sites;

#[test]
fn generation_is_deterministic() {
    let a = generate_sites(25, 100, 80, 12345);
    let b = generate_sites(25, 100, 80, 12345);
    assert_eq!(a.len(), 25);
    assert_eq!(a, b);
}

#[test]
fn generation_is_deterministic_across_seeds() {
    for seed in 0..20u64 {
        let a = generate_sites(10, 64, 48, seed);
        let b = generate_sites(10, 64, 48, seed);
        assert_eq!(a, b);
    }
}

#[test]
fn generated_positions_are_in_range() {
    let sites = generate_sites(200, 37, 53, 7);
    assert_eq!(sites.len(), 200);
    for s in &sites {
        assert!(0 <= s.point.x && s.point.x < 37);
        assert!(0 <= s.point.y && s.point.y < 53);
    }
}

#[test]
fn zero_count_gives_empty_sequence() {
    let sites = generate_sites(0, 10, 10, 42);
    assert!(sites.is_empty());
}

#[test]
fn single_cell_grid_pins_positions() {
    let sites = generate_sites(50, 1, 1, 9);
    for s in &sites {
        assert_eq!(s.point.x, 0);
        assert_eq!(s.point.y, 0);
    }
}
