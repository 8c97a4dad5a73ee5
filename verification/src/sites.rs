use vstd::prelude::*;

use crate::geometry::{in_bounds, Color, Point, Site, COORD_LIMIT};
use crate::rng::{mix, next_state, SplitMix};

verus! {

/// Largest grid dimension the library accepts; equal to the coordinate
/// limit, so that every cell of a grid this large is an in-range point.
pub const GRID_LIMIT: usize = 0x4000_0000;

/// The generator state after `n` draws from the given seed.
pub open spec fn rng_state(seed: u64, n: nat) -> u64
    decreases n,
{
    if n == 0 {
        seed
    } else {
        next_state(rng_state(seed, (n - 1) as nat))
    }
}

/// The `k`-th word drawn from the given seed (a function of the seed
/// and `k` alone).
pub open spec fn draw(seed: u64, k: nat) -> u64 {
    mix(rng_state(seed, k + 1))
}

/// The `k`-th generated site. Each site consumes five words: one for
/// each coordinate and one for each color channel. Coordinates are
/// reduced to `[0, width)` and `[0, height)`, channels to `[0, 256)`.
pub open spec fn site_at(seed: u64, width: u64, height: u64, k: nat) -> Site
    recommends
        width > 0,
        height > 0,
{
    Site {
        point: Point {
            x: (draw(seed, 5 * k) % width) as i64,
            y: (draw(seed, 5 * k + 1) % height) as i64,
        },
        color: Color {
            r: (draw(seed, 5 * k + 2) % 256) as u8,
            g: (draw(seed, 5 * k + 3) % 256) as u8,
            b: (draw(seed, 5 * k + 4) % 256) as u8,
        },
    }
}

/// The full site sequence for the given parameters: `count` sites, in
/// order, each determined by the seed and its position alone.
pub open spec fn sites_spec(count: nat, width: u64, height: u64, seed: u64) -> Seq<Site> {
    Seq::new(count, |k: int| site_at(seed, width, height, k as nat))
}

/// Generates `count` sites with positions in `[0, width) x [0, height)`
/// and arbitrary colors, all drawn from an explicit seeded generator.
/// The result is exactly `sites_spec` of the arguments, so any two runs
/// with equal arguments return equal sequences.
pub fn generate_sites(count: usize, width: usize, height: usize, seed: u64) -> (sites: Vec<
    Site,
>)
    requires
        1 <= width <= GRID_LIMIT,
        1 <= height <= GRID_LIMIT,
    ensures
        sites@ == sites_spec(count as nat, width as u64, height as u64, seed),
        sites@.len() == count,
        forall|k: int|
            0 <= k < count ==> 0 <= #[trigger] sites@[k].point.x < width && 0 <= sites@[k].point.y
                < height,
        forall|k: int| 0 <= k < count ==> in_bounds(#[trigger] sites@[k].point),
{
    let w: u64 = width as u64;
    let h: u64 = height as u64;
    let mut rng = SplitMix::with_seed(seed);
    let mut sites: Vec<Site> = Vec::new();
    let mut k: usize = 0;
    while k < count
        invariant
            k <= count,
            1 <= w <= GRID_LIMIT,
            1 <= h <= GRID_LIMIT,
            rng@ == rng_state(seed, 5 * (k as nat)),
            sites@.len() == k,
            forall|j: int|
                0 <= j < k ==> #[trigger] sites@[j] == site_at(seed, w, h, j as nat),
        decreases count - k,
    {
        let d0 = rng.next_u64();
        let d1 = rng.next_u64();
        let d2 = rng.next_u64();
        let d3 = rng.next_u64();
        let d4 = rng.next_u64();
        proof {
            let n: nat = 5 * (k as nat);
            assert(rng_state(seed, n + 1) == next_state(rng_state(seed, n)));
            assert(rng_state(seed, n + 2) == next_state(rng_state(seed, n + 1)));
            assert(rng_state(seed, n + 3) == next_state(rng_state(seed, n + 2)));
            assert(rng_state(seed, n + 4) == next_state(rng_state(seed, n + 3)));
            assert(rng_state(seed, n + 5) == next_state(rng_state(seed, n + 4)));
            assert(d0 == draw(seed, n));
            assert(d1 == draw(seed, n + 1));
            assert(d2 == draw(seed, n + 2));
            assert(d3 == draw(seed, n + 3));
            assert(d4 == draw(seed, n + 4));
        }
        let x: u64 = d0 % w;
        let y: u64 = d1 % h;
        let r: u8 = (d2 % 256) as u8;
        let g: u8 = (d3 % 256) as u8;
        let b: u8 = (d4 % 256) as u8;
        let site = Site::new(Point::new(x as i64, y as i64), Color::new(r, g, b));
        proof {
            assert(site == site_at(seed, w, h, k as nat));
        }
        sites.push(site);
        k = k + 1;
    }
    proof {
        assert(sites@ =~= sites_spec(count as nat, w, h, seed));
    }
    sites
}

/// Site generation is deterministic: two sequences produced for the
/// same count, dimensions and seed are equal.
pub proof fn lemma_generation_deterministic(
    count: nat,
    width: u64,
    height: u64,
    seed: u64,
    first: Seq<Site>,
    second: Seq<Site>,
)
    requires
        first == sites_spec(count, width, height, seed),
        second == sites_spec(count, width, height, seed),
    ensures
        first == second,
{
}

} // verus!
