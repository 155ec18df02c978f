use rustaria::block::{Block, BlockData, BlockDatabase, BlockLayer};
use rustaria::chunk::Chunk;
use rustaria::light::{update_light, LightJob, LightPhase, LightUpdateQueue};
use rustaria::terrain::{generate_chunk_data, TerrainNoise};
use rustaria::world::{SetBlock, World};

const TORCH: u32 = 7;

fn catalog() -> BlockDatabase {
    let e = |is_solid: bool, drop_item: u32, light_emission: u8| BlockData {
        is_solid,
        durability: 1,
        drop_item,
        light_emission,
    };
    BlockDatabase::new(vec![
        e(true, 101, 0),
        e(true, 101, 0),
        e(true, 103, 0),
        e(true, 104, 0),
        e(false, 0, 0),
        e(false, 0, 0),
        e(false, 107, 14),
    ])
    .unwrap()
}

/// Solid ground up to row 227, grass on row 228, air above.
fn ground() -> TerrainNoise {
    TerrainNoise { surface: vec![100; 32], cave: vec![0; 32 * 256], material: vec![0; 32 * 256] }
}

fn drain(w: &mut World, q: &mut LightUpdateQueue) -> Vec<i32> {
    let mut drawn = vec![];
    while q.len() > 0 {
        if let Some(c) = update_light(w, q) {
            drawn.push(c.position());
        }
    }
    drawn
}

fn light(w: &World, column: i32, x: usize, y: usize) -> u8 {
    w.get_chunk(column).unwrap().block(x, y, BlockLayer::Foreground).light
}

fn place_torch(w: &mut World, q: &mut LightUpdateQueue, db: &BlockDatabase, column: i32, x: i64, y: i64) {
    let ev = SetBlock {
        block: db.get_by_id(TORCH).unwrap(),
        position: ((column as i64 * 32 + x) * 16, y * 16),
        layer: BlockLayer::Foreground,
        can_overwrite: true,
    };
    w.set_block(q, &ev).unwrap();
}

#[test]
fn sun_fades_one_level_per_clear_cell() {
    let db = catalog();
    let mut w = World::new();
    let mut q = LightUpdateQueue::new();
    generate_chunk_data(&mut w, &mut q, &db, 0, 1, &ground());
    assert_eq!(drain(&mut w, &mut q), vec![0]);
    assert_eq!(light(&w, 0, 5, 255), 15);
    assert_eq!(light(&w, 0, 5, 254), 14);
    assert_eq!(light(&w, 0, 5, 250), 10);
    assert_eq!(light(&w, 0, 5, 241), 1);
    assert_eq!(light(&w, 0, 5, 240), 0);
    assert_eq!(light(&w, 0, 5, 229), 0);
    assert_eq!(light(&w, 0, 5, 100), 0);
    let c = w.get_chunk(0).unwrap();
    assert_eq!(c.block(5, 250, BlockLayer::Background).light, 10);
}

#[test]
fn sun_in_open_air_chunk() {
    let mut w = World::new();
    let mut q = LightUpdateQueue::new();
    w.insert_chunk(Chunk::new(0));
    q.push_light_updates(&w, 0);
    drain(&mut w, &mut q);
    assert_eq!(light(&w, 0, 0, 255), 15);
    assert_eq!(light(&w, 0, 0, 254), 14);
    assert_eq!(light(&w, 0, 31, 246), 6);
}

#[test]
fn sun_into_solid_costs_three() {
    let db = catalog();
    let mut w = World::new();
    let mut q = LightUpdateQueue::new();
    w.insert_chunk(Chunk::new(0));
    let stone = SetBlock {
        block: db.get_by_id(3).unwrap(),
        position: (3 * 16, 254 * 16),
        layer: BlockLayer::Foreground,
        can_overwrite: true,
    };
    w.set_block(&mut q, &stone).unwrap();
    drain(&mut w, &mut q);
    assert_eq!(light(&w, 0, 3, 255), 15);
    // neighbours at 14 reach it sideways at 11; from above it gets 12
    assert_eq!(light(&w, 0, 3, 254), 12);
    assert_eq!(light(&w, 0, 3, 253), 11);
}

#[test]
fn torch_light_falls_by_one_per_step() {
    let db = catalog();
    let mut w = World::new();
    let mut q = LightUpdateQueue::new();
    generate_chunk_data(&mut w, &mut q, &db, 0, 1, &ground());
    drain(&mut w, &mut q);
    place_torch(&mut w, &mut q, &db, 0, 10, 50);
    drain(&mut w, &mut q);
    assert_eq!(light(&w, 0, 10, 50), 14);
    assert_eq!(light(&w, 0, 11, 50), 13);
    assert_eq!(light(&w, 0, 10, 48), 12);
    assert_eq!(light(&w, 0, 13, 51), 10);
    assert_eq!(light(&w, 0, 24, 50), 0);
    assert_eq!(light(&w, 0, 23, 50), 1);
    let c = w.get_chunk(0).unwrap();
    assert_eq!(c.block(11, 50, BlockLayer::Background).light, 13);
}

#[test]
fn internal_job_is_not_drawn() {
    let db = catalog();
    let mut w = World::new();
    let mut q = LightUpdateQueue::new();
    generate_chunk_data(&mut w, &mut q, &db, 4, 1, &ground());
    assert_eq!(update_light(&mut w, &mut q).map(|c| c.position()), None);
    let drawn = update_light(&mut w, &mut q).unwrap();
    assert_eq!(drawn.position(), 4);
    assert_eq!(drawn.block(0, 255, BlockLayer::Foreground).light, 15);
    assert!(update_light(&mut w, &mut q).is_none());
}

#[test]
fn job_for_missing_chunk_does_nothing() {
    let mut w = World::new();
    let mut q = LightUpdateQueue::new();
    q.push_light_updates(&w, 9);
    assert_eq!(q.len(), 2);
    assert!(update_light(&mut w, &mut q).is_none());
    assert!(update_light(&mut w, &mut q).is_none());
    assert_eq!(q.pop(), None);
}

#[test]
fn light_bleeds_across_the_border() {
    let db = catalog();
    let mut w = World::new();
    let mut q = LightUpdateQueue::new();
    generate_chunk_data(&mut w, &mut q, &db, 0, 1, &ground());
    generate_chunk_data(&mut w, &mut q, &db, 1, 1, &ground());
    drain(&mut w, &mut q);
    assert_eq!(light(&w, 1, 0, 50), 0);
    place_torch(&mut w, &mut q, &db, 0, 31, 50);
    drain(&mut w, &mut q);
    assert_eq!(light(&w, 0, 31, 50), 14);
    assert_eq!(light(&w, 1, 0, 50), 13);
    assert_eq!(light(&w, 1, 1, 50), 12);
    assert_eq!(light(&w, 1, 0, 51), 12);
    // later work on other columns leaves it in place
    generate_chunk_data(&mut w, &mut q, &db, 5, 1, &ground());
    drain(&mut w, &mut q);
    assert_eq!(light(&w, 1, 0, 50), 13);
}

#[test]
fn border_job_never_lowers() {
    let db = catalog();
    let mut w = World::new();
    let mut q = LightUpdateQueue::new();
    generate_chunk_data(&mut w, &mut q, &db, 0, 1, &ground());
    drain(&mut w, &mut q);
    place_torch(&mut w, &mut q, &db, 0, 0, 50);
    drain(&mut w, &mut q);
    assert_eq!(light(&w, 0, 0, 50), 14);
    let snapshot = |w: &World| -> Vec<u8> {
        let mut v = vec![];
        for x in 0..32 {
            for y in 0..256 {
                v.push(light(w, 0, x, y));
            }
        }
        v
    };
    let before = snapshot(&w);
    let mut q2 = LightUpdateQueue::new();
    q2.push_light_updates(&w, 0);
    assert_eq!(q2.pop(), Some(LightJob { target: 0, phase: LightPhase::Internal }));
    assert!(update_light(&mut w, &mut q2).is_some());
    let after = snapshot(&w);
    assert_eq!(before, after);
}

#[test]
fn placeholder_is_dark() {
    let p = Chunk::placeholder();
    for y in 0..256 {
        assert_eq!(p.block(31, y, BlockLayer::Foreground).light, 0);
    }
}

#[test]
fn air_block_has_no_light() {
    assert_eq!(Block::air().light, 0);
}
