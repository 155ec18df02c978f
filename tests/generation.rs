use noise::{NoiseFn, Perlin, Simplex};
use rustaria::block::{BlockData, BlockDatabase, BlockLayer};
use rustaria::light::{LightJob, LightPhase, LightUpdateQueue};
use rustaria::terrain::{generate_chunk_data, hash_seed, TerrainNoise};
use rustaria::world::World;

fn catalog() -> BlockDatabase {
    let e = |is_solid: bool, drop_item: u32, light_emission: u8| BlockData {
        is_solid,
        durability: 1,
        drop_item,
        light_emission,
    };
    BlockDatabase::new(vec![
        e(true, 101, 0),
        e(true, 101, 0),
        e(true, 103, 0),
        e(true, 104, 0),
        e(false, 0, 0),
        e(false, 0, 0),
    ])
    .unwrap()
}

fn flat_noise(surface: i32, cave: i32, material: i32) -> TerrainNoise {
    TerrainNoise { surface: vec![surface; 32], cave: vec![cave; 32 * 256], material: vec![material; 32 * 256] }
}

/// Samples the noise fields of one chunk the way the game does.
fn sample(seed: u32, column: i32) -> TerrainNoise {
    let perlin = Perlin::new(seed);
    let simplex = Simplex::new(seed);
    let spread = 0.05;
    let offset = 1000.0;
    let mut surface = vec![];
    let mut cave = vec![];
    let mut material = vec![];
    for x in 0..32 {
        let xf = x as f64 + column as f64 * 32.0;
        let s = perlin.get([xf * spread]) + perlin.get([xf * spread * 0.25]) + perlin.get([xf * spread * 2.0]);
        surface.push(s.floor() as i32);
        for y in 0..256 {
            let yf = y as f64;
            let c = simplex.get([xf * spread, yf * spread])
                + simplex.get([xf * spread * 0.25, yf * spread * 0.25])
                + simplex.get([xf * spread * 1.5, yf * spread * 1.5])
                + simplex.get([xf * spread * 2.5, yf * spread * 2.5]);
            let m = simplex.get([(xf + offset) * spread, (yf + offset) * spread])
                + simplex.get([(xf + offset) * spread * 0.25, (yf + offset) * spread * 0.25])
                + simplex.get([(xf + offset) * spread * 1.5, (yf + offset) * spread * 1.5]);
            cave.push((c * 1000.0).ceil() as i32);
            material.push((m * 1000.0).ceil() as i32);
        }
    }
    TerrainNoise { surface, cave, material }
}

fn ids(w: &World, column: i32, x: usize, y: usize) -> (u32, u32) {
    let c = w.get_chunk(column).unwrap();
    (c.block(x, y, BlockLayer::Foreground).id, c.block(x, y, BlockLayer::Background).id)
}

#[test]
fn flat_terrain_layers() {
    let db = catalog();
    let mut w = World::new();
    let mut q = LightUpdateQueue::new();
    generate_chunk_data(&mut w, &mut q, &db, 0, 7, &flat_noise(0, 0, 0));
    assert_eq!(ids(&w, 0, 5, 0), (1, 1));
    assert_eq!(ids(&w, 0, 5, 127), (1, 1));
    assert_eq!(ids(&w, 0, 5, 128), (2, 1));
    assert_eq!(ids(&w, 0, 5, 129), (6, 0));
    assert_eq!(ids(&w, 0, 6, 129), (0, 0));
    assert_eq!(ids(&w, 0, 4, 129), (6, 0));
    assert_eq!(ids(&w, 0, 3, 129), (0, 0));
    assert_eq!(ids(&w, 0, 5, 200), (0, 0));
}

#[test]
fn trees_on_every_ninth_column() {
    let db = catalog();
    let mut w = World::new();
    let mut q = LightUpdateQueue::new();
    generate_chunk_data(&mut w, &mut q, &db, 0, 7, &flat_noise(0, 0, 0));
    for tx in [0usize, 9, 18, 27] {
        assert_eq!(ids(&w, 0, tx + 2, 128), (4, 0));
        assert_eq!(ids(&w, 0, tx + 2, 129), (4, 0));
        let mut logs = 0;
        while ids(&w, 0, tx + 2, 128 + logs).0 == 4 {
            logs += 1;
        }
        assert!((2..6).contains(&logs));
        for i in 0..5 {
            assert_eq!(ids(&w, 0, tx + i, 128 + logs).0, 5);
            assert_eq!(ids(&w, 0, tx + i, 129 + logs).0, 5);
        }
        assert_eq!(ids(&w, 0, tx, 130 + logs).0, 0);
        assert_eq!(ids(&w, 0, tx + 1, 130 + logs).0, 5);
        assert_eq!(ids(&w, 0, tx + 4, 131 + logs).0, 0);
        assert_eq!(ids(&w, 0, tx + 2, 132 + logs).0, 0);
    }
    // the grass beside a trunk stays
    assert_eq!(ids(&w, 0, 0, 128), (2, 1));
    assert_eq!(ids(&w, 0, 0, 129), (6, 0));
}

#[test]
fn caves_carve_the_foreground() {
    let db = catalog();
    let mut w = World::new();
    let mut q = LightUpdateQueue::new();
    generate_chunk_data(&mut w, &mut q, &db, 0, 7, &flat_noise(0, -950, 0));
    assert_eq!(ids(&w, 0, 9, 10), (0, 1));
    assert_eq!(ids(&w, 0, 9, 127), (0, 1));
    assert_eq!(ids(&w, 0, 9, 128), (0, 0));
    assert_eq!(ids(&w, 0, 11, 129), (0, 0));
}

#[test]
fn soil_threshold_by_depth() {
    let db = catalog();
    let mut w = World::new();
    let mut q = LightUpdateQueue::new();
    generate_chunk_data(&mut w, &mut q, &db, 0, 7, &flat_noise(0, 0, -500));
    assert_eq!(ids(&w, 0, 5, 42), (3, 3));
    assert_eq!(ids(&w, 0, 5, 43), (1, 1));
    let mut w2 = World::new();
    generate_chunk_data(&mut w2, &mut q, &db, 0, 7, &flat_noise(0, -500, -950));
    assert_eq!(ids(&w2, 0, 5, 42), (0, 3));
    assert_eq!(ids(&w2, 0, 5, 43), (3, 3));
}

#[test]
fn surface_outside_world() {
    let db = catalog();
    let mut w = World::new();
    let mut q = LightUpdateQueue::new();
    generate_chunk_data(&mut w, &mut q, &db, 0, 7, &flat_noise(200, 0, 0));
    assert_eq!(ids(&w, 0, 5, 255), (1, 1));
    generate_chunk_data(&mut w, &mut q, &db, 1, 7, &flat_noise(-200, 0, 0));
    assert_eq!(ids(&w, 1, 5, 0), (0, 0));
}

#[test]
fn generation_queues_light_jobs() {
    let db = catalog();
    let mut w = World::new();
    let mut q = LightUpdateQueue::new();
    generate_chunk_data(&mut w, &mut q, &db, 3, 7, &flat_noise(0, 0, 0));
    generate_chunk_data(&mut w, &mut q, &db, 2, 7, &flat_noise(0, 0, 0));
    let mut jobs = vec![];
    while let Some(j) = q.pop() {
        jobs.push(j);
    }
    let j = |target: i32, phase: LightPhase| LightJob { target, phase };
    assert_eq!(
        jobs,
        vec![
            j(3, LightPhase::Internal),
            j(3, LightPhase::Border),
            j(2, LightPhase::Internal),
            j(3, LightPhase::Internal),
            j(2, LightPhase::Border),
            j(3, LightPhase::Border),
        ]
    );
}

#[test]
fn generation_is_deterministic() {
    let db = catalog();
    let seed = hash_seed(b"determinism");
    let mut a = World::new();
    let mut b = World::new();
    let mut q = LightUpdateQueue::new();
    generate_chunk_data(&mut a, &mut q, &db, -2, seed, &sample(seed, -2));
    generate_chunk_data(&mut b, &mut q, &db, -2, seed, &sample(seed, -2));
    let ca = a.get_chunk(-2).unwrap();
    let cb = b.get_chunk(-2).unwrap();
    for x in 0..32 {
        for y in 0..256 {
            assert_eq!(ca.block(x, y, BlockLayer::Foreground), cb.block(x, y, BlockLayer::Foreground));
            assert_eq!(ca.block(x, y, BlockLayer::Background), cb.block(x, y, BlockLayer::Background));
        }
    }
}

#[test]
fn seed_hash_is_stable() {
    assert_eq!(hash_seed(b"S"), hash_seed(b"S"));
    assert_ne!(hash_seed(b"S"), hash_seed(b"T"));
}

#[test]
fn seeded_scenario_repeats() {
    let db = catalog();
    let run = || {
        let seed = hash_seed(b"S");
        let mut w = World::new();
        let mut q = LightUpdateQueue::new();
        generate_chunk_data(&mut w, &mut q, &db, 0, seed, &sample(seed, 0));
        generate_chunk_data(&mut w, &mut q, &db, 1, seed, &sample(seed, 1));
        [ids(&w, 0, 0, 0), ids(&w, 0, 31, 0), ids(&w, 1, 0, 0), ids(&w, 1, 31, 0)]
    };
    let first = run();
    let second = run();
    assert_eq!(first, second);
    // the bottom row lies deep underground: soil in the background
    for (_, bg) in first {
        assert!(bg == 1 || bg == 3);
    }
}
