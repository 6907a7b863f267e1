use color_growth::dice::UNIT;
use color_growth::grid::Location;
use color_growth::growth::Config;
use color_growth::growth::Growth;
use rand::rngs::StdRng;
use rand::Rng;
use rand::SeedableRng;
use std::collections::HashMap;

/// The growth written out with floating point and plain collections.
fn float_model(
    size: usize,
    num_seeds: usize,
    max: u8,
    long: u8,
    halving: f64,
    smoothing: isize,
    fuzz: f64,
    seed: u64,
) -> HashMap<[usize; 2], [u8; 3]> {
    let blend = |a: [u8; 3], b: [u8; 3]| -> [u8; 3] {
        let mut out = [0u8; 3];
        for i in 0..3 {
            out[i] = a[i] / 2 + b[i] / 2 + (a[i] & b[i] & 1);
        }
        out
    };
    let mut rng = StdRng::seed_from_u64(seed);
    let mut colors: HashMap<[usize; 2], [u8; 3]> = HashMap::new();
    let mut order: Vec<[usize; 2]> = Vec::new();
    let mut pending: HashMap<[usize; 2], ([u8; 3], usize)> = HashMap::new();
    for _ in 0..num_seeds {
        let location = [rng.gen_range(0..size), rng.gen_range(0..size)];
        let color: [u8; 3] = rng.gen();
        if !pending.contains_key(&location) {
            pending.insert(location, (color, 0));
            order.push(location);
        }
    }
    let mut count = 0usize;
    while !order.is_empty() {
        count += 1;
        assert!(count < 10_000_000);
        let mut index = rng.gen_range(0..order.len());
        if rng.gen::<f64>() < fuzz {
            index = order.len() - 1;
        }
        let location = order.swap_remove(index);
        let (color, steps) = pending.remove(&location).unwrap();
        let shade = match colors.get(&location) {
            Some(&held) => blend(held, color),
            None => color,
        };
        colors.insert(location, shade);
        for offset in [[-1isize, 0isize], [0, -1], [1, 0], [0, 1]] {
            if rng.gen::<f64>() > 0.5 {
                continue;
            }
            let row = location[0] as isize + offset[0];
            let col = location[1] as isize + offset[1];
            if row < 0 || row >= size as isize || col < 0 || col >= size as isize {
                continue;
            }
            let next = [row as usize, col as usize];
            if colors.contains_key(&next) {
                let mut found_empty = false;
                for off in -smoothing..=smoothing {
                    for (dr, dc) in [(0, off), (off, 0), (off, off), (-off, off)] {
                        let nr = dr + row;
                        let nc = dc + col;
                        if nr < 0 || nr >= size as isize || nc < 0 || nc >= size as isize {
                            continue;
                        }
                        if !colors.contains_key(&[nr as usize, nc as usize]) {
                            found_empty = true;
                        }
                    }
                }
                if !found_empty {
                    continue;
                }
            }
            let fdiffusion =
                (max - long) as f64 * 2.0f64.powf(-(steps as f64) / halving) + long as f64;
            let diffusion = fdiffusion as i16;
            let shift = [
                rng.gen_range(-diffusion..=diffusion),
                rng.gen_range(-diffusion..=diffusion),
                rng.gen_range(-diffusion..=diffusion),
            ];
            let mut fresh = [0u8; 3];
            for i in 0..3 {
                fresh[i] = (color[i] as i16 + shift[i]).clamp(0, 255) as u8;
            }
            match pending.get_mut(&next) {
                Some((held, held_steps)) => {
                    *held = blend(*held, fresh);
                    *held_steps = (*held_steps + steps + 1) / 2;
                }
                None => {
                    pending.insert(next, (fresh, steps + 1));
                    order.push(next);
                }
            }
        }
    }
    colors
}

fn agrees_with_model(
    size: usize,
    seeds: usize,
    max: u8,
    long: u8,
    halving: usize,
    smoothing: usize,
    fuzz: f64,
    seed: u64,
) {
    let model =
        float_model(size, seeds, max, long, halving as f64, smoothing as isize, fuzz, seed);
    let config = Config {
        size,
        seeds,
        max,
        long,
        halving,
        smoothing,
        fuzz: (fuzz * UNIT as f64).ceil() as u64,
    };
    assert!(config.is_valid());
    let mut growth = Growth::new(config, seed);
    assert!(growth.run(10_000_000));
    assert_eq!(growth.finalized_count(), model.len());
    for row in 0..size {
        for col in 0..size {
            let here = growth.color_at(Location { row, col }).map(|c| [c.r, c.g, c.b]);
            assert_eq!(here, model.get(&[row, col]).copied(), "at {} {}", row, col);
        }
    }
}

#[test]
fn growth_agrees_with_floating_point_model() {
    for seed in 0..6u64 {
        agrees_with_model(20, 3, 255, 6, 4, 4, 0.8, seed);
    }
}

#[test]
fn growth_agrees_with_model_without_fuzz_or_smoothing() {
    for seed in 0..4u64 {
        agrees_with_model(12, 2, 100, 10, 3, 0, 0.0, seed);
    }
}

#[test]
fn growth_agrees_with_model_with_full_fuzz() {
    for seed in 0..4u64 {
        agrees_with_model(8, 3, 255, 0, 16, 1, 1.0, seed);
    }
}

#[test]
fn growth_agrees_with_model_with_wide_smoothing() {
    for seed in 0..4u64 {
        agrees_with_model(6, 2, 255, 0, 16, 20, 0.5, seed);
    }
}

#[test]
fn growth_agrees_with_model_on_tiny_canvases() {
    for size in 1..5usize {
        agrees_with_model(size, 2, 255, 6, 1, 1, 0.3, 17);
    }
}

#[test]
fn growth_agrees_with_model_with_crowded_seeds() {
    agrees_with_model(3, 30, 255, 6, 4, 4, 0.8, 2);
}

#[test]
fn growth_agrees_with_model_with_flat_drift() {
    agrees_with_model(16, 2, 40, 40, 5, 2, 0.6, 9);
}

#[test]
fn growth_agrees_with_model_with_a_long_halving_distance() {
    for seed in 0..3u64 {
        agrees_with_model(12, 2, 255, 6, 1000, 2, 0.7, seed);
    }
}
