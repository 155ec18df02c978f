use rustaria::block::{Block, BlockData, BlockDatabase, BlockLayer, WorldError};
use rustaria::block_structure::BlockStructure;
use rustaria::chunk::Chunk;
use rustaria::light::{LightJob, LightPhase, LightUpdateQueue};
use rustaria::world::{resolve_position, SetBlock, SpawnItemPickup, World};

fn catalog() -> BlockDatabase {
    let e = |is_solid: bool, drop_item: u32, light_emission: u8| BlockData {
        is_solid,
        durability: 1,
        drop_item,
        light_emission,
    };
    BlockDatabase::new(vec![
        e(true, 101, 0),
        e(true, 101, 0),
        e(true, 103, 0),
        e(true, 104, 0),
        e(false, 0, 0),
        e(false, 0, 0),
        e(false, 107, 14),
    ])
    .unwrap()
}

fn world_with(columns: &[i32]) -> World {
    let mut w = World::new();
    for &c in columns {
        w.insert_chunk(Chunk::new(c));
    }
    w
}

fn drain(q: &mut LightUpdateQueue) -> Vec<LightJob> {
    let mut v = vec![];
    while let Some(j) = q.pop() {
        v.push(j);
    }
    v
}

fn job(target: i32, phase: LightPhase) -> LightJob {
    LightJob { target, phase }
}

#[test]
fn resolve_positive_position() {
    let p = resolve_position(512 + 3 * 16 + 5, 16 * 7 + 15).unwrap();
    assert_eq!((p.column, p.x, p.y), (1, 3, 7));
}

#[test]
fn resolve_negative_position() {
    let p = resolve_position(-1, 0).unwrap();
    assert_eq!((p.column, p.x, p.y), (-1, 31, 0));
    let q = resolve_position(-512, 5).unwrap();
    assert_eq!((q.column, q.x, q.y), (-1, 0, 0));
    let r = resolve_position(-513, 5).unwrap();
    assert_eq!((r.column, r.x, r.y), (-2, 31, 0));
}

#[test]
fn resolve_outside_height() {
    assert!(resolve_position(0, -1).is_none());
    assert!(resolve_position(0, 256 * 16).is_none());
    assert!(resolve_position(0, 256 * 16 - 1).is_some());
}

#[test]
fn place_into_air() {
    let db = catalog();
    let mut w = world_with(&[0]);
    let mut q = LightUpdateQueue::new();
    let stone = db.get_by_id(3).unwrap();
    let ev = SetBlock { block: stone, position: (5 * 16 + 2, 9 * 16), layer: BlockLayer::Foreground, can_overwrite: false };
    assert_eq!(w.set_block(&mut q, &ev), Ok(None));
    assert_eq!(w.get_block(5 * 16, 9 * 16 + 3, BlockLayer::Foreground), Some(stone));
    assert_eq!(w.get_block(5 * 16, 9 * 16, BlockLayer::Background), Some(Block::air()));
    assert_eq!(drain(&mut q), vec![job(0, LightPhase::Internal), job(0, LightPhase::Border)]);
}

#[test]
fn no_overwrite_of_occupied_cell() {
    let db = catalog();
    let mut w = world_with(&[0]);
    let mut q = LightUpdateQueue::new();
    let stone = db.get_by_id(3).unwrap();
    let dirt = db.get_by_id(1).unwrap();
    let put = SetBlock { block: stone, position: (16, 16), layer: BlockLayer::Background, can_overwrite: true };
    assert_eq!(w.set_block(&mut q, &put), Ok(None));
    drain(&mut q);
    let again = SetBlock { block: dirt, position: (16, 16), layer: BlockLayer::Background, can_overwrite: false };
    assert_eq!(w.set_block(&mut q, &again), Err(WorldError::PlacementRejected));
    assert_eq!(w.get_block(16, 16, BlockLayer::Background), Some(stone));
    assert_eq!(q.len(), 0);
}

#[test]
fn breaking_drops_its_item() {
    let db = catalog();
    let mut w = world_with(&[-1, 0, 1]);
    let mut q = LightUpdateQueue::new();
    let log = db.get_by_id(4).unwrap();
    let put = SetBlock { block: log, position: (40, 33), layer: BlockLayer::Foreground, can_overwrite: true };
    w.set_block(&mut q, &put).unwrap();
    drain(&mut q);
    let brk = SetBlock { block: Block::air(), position: (40, 33), layer: BlockLayer::Foreground, can_overwrite: true };
    assert_eq!(w.set_block(&mut q, &brk), Ok(Some(SpawnItemPickup { drop_item: 104, x: 40, y: 40 })));
    assert_eq!(w.get_block(40, 33, BlockLayer::Foreground), Some(Block::air()));
    assert_eq!(
        drain(&mut q),
        vec![
            job(0, LightPhase::Internal),
            job(-1, LightPhase::Internal),
            job(1, LightPhase::Internal),
            job(0, LightPhase::Border),
            job(-1, LightPhase::Border),
            job(1, LightPhase::Border),
        ]
    );
}

#[test]
fn breaking_air_drops_nothing() {
    let mut w = world_with(&[0]);
    let mut q = LightUpdateQueue::new();
    let brk = SetBlock { block: Block::air(), position: (40, 33), layer: BlockLayer::Foreground, can_overwrite: true };
    assert_eq!(w.set_block(&mut q, &brk), Ok(None));
}

#[test]
fn breaking_background_drops_nothing() {
    let db = catalog();
    let mut w = world_with(&[0]);
    let mut q = LightUpdateQueue::new();
    let put = SetBlock { block: db.get_by_id(3).unwrap(), position: (8, 8), layer: BlockLayer::Background, can_overwrite: true };
    w.set_block(&mut q, &put).unwrap();
    let brk = SetBlock { block: Block::air(), position: (8, 8), layer: BlockLayer::Background, can_overwrite: true };
    assert_eq!(w.set_block(&mut q, &brk), Ok(None));
}

#[test]
fn set_block_in_missing_column() {
    let db = catalog();
    let mut w = world_with(&[0]);
    let mut q = LightUpdateQueue::new();
    let ev = SetBlock { block: db.get_by_id(1).unwrap(), position: (-3, 0), layer: BlockLayer::Foreground, can_overwrite: true };
    assert_eq!(w.set_block(&mut q, &ev), Err(WorldError::ChunkNotLoaded(-1)));
    let high = SetBlock { block: db.get_by_id(1).unwrap(), position: (3, 256 * 16), layer: BlockLayer::Foreground, can_overwrite: true };
    assert_eq!(w.set_block(&mut q, &high), Err(WorldError::OutOfWorld));
    assert_eq!(q.len(), 0);
}

#[test]
fn missing_column_is_reported_before_height() {
    let db = catalog();
    let mut w = world_with(&[0]);
    let mut q = LightUpdateQueue::new();
    let ev = SetBlock { block: db.get_by_id(1).unwrap(), position: (600, -20), layer: BlockLayer::Foreground, can_overwrite: true };
    assert_eq!(w.set_block(&mut q, &ev), Err(WorldError::ChunkNotLoaded(1)));
    let ev2 = SetBlock { block: db.get_by_id(1).unwrap(), position: (600, 5000), layer: BlockLayer::Foreground, can_overwrite: true };
    assert_eq!(w.set_block(&mut q, &ev2), Err(WorldError::ChunkNotLoaded(1)));
    let ev3 = SetBlock { block: db.get_by_id(1).unwrap(), position: (20, -20), layer: BlockLayer::Foreground, can_overwrite: true };
    assert_eq!(w.set_block(&mut q, &ev3), Err(WorldError::OutOfWorld));
}

#[test]
fn placed_block_keeps_the_cell_light() {
    let db = catalog();
    let mut w = world_with(&[0]);
    let mut q = LightUpdateQueue::new();
    q.push_light_updates(&w, 0);
    while q.len() > 0 {
        rustaria::light::update_light(&mut w, &mut q);
    }
    let mut lit = db.get_by_id(3).unwrap();
    lit.light = 2;
    let ev = SetBlock { block: lit, position: (3 * 16, 254 * 16), layer: BlockLayer::Background, can_overwrite: true };
    w.set_block(&mut q, &ev).unwrap();
    let c = w.get_chunk(0).unwrap();
    assert_eq!(c.block(3, 254, BlockLayer::Background).id, 3);
    assert_eq!(c.block(3, 254, BlockLayer::Background).light, 14);
    assert_eq!(c.block(3, 254, BlockLayer::Foreground).light, 14);
}

#[test]
fn get_block_in_missing_column() {
    let w = world_with(&[0]);
    assert_eq!(w.get_block(600, 0, BlockLayer::Foreground), None);
    assert!(w.get_chunk(1).is_none());
    assert!(w.has_chunk(0));
}

#[test]
fn stamp_across_right_border() {
    let db = catalog();
    let mut w = world_with(&[0, 1]);
    let mut q = LightUpdateQueue::new();
    let tree = BlockStructure::new_tree(2);
    assert_eq!(w.stamp_structure(&mut q, &db, &tree, 0, 30, 10), Ok(()));
    let c0 = w.get_chunk(0).unwrap();
    let c1 = w.get_chunk(1).unwrap();
    // trunk lands at local x 32, i.e. column 1, x 0
    assert_eq!(c1.block(0, 10, BlockLayer::Foreground).id, 4);
    assert_eq!(c1.block(0, 11, BlockLayer::Foreground).id, 4);
    assert_eq!(c0.block(30, 10, BlockLayer::Foreground).id, 0);
    assert_eq!(c0.block(30, 12, BlockLayer::Foreground).id, 5);
    assert_eq!(c0.block(31, 12, BlockLayer::Foreground).id, 5);
    assert_eq!(c1.block(2, 12, BlockLayer::Foreground).id, 5);
    assert_eq!(c1.block(3, 12, BlockLayer::Foreground).id, 0);
    assert_eq!(c0.block(30, 14, BlockLayer::Foreground).id, 0);
    assert_eq!(c0.block(31, 14, BlockLayer::Foreground).id, 5);
    // twelve pattern cells land in column 1: one round of its jobs for each
    let round = vec![
        job(1, LightPhase::Internal),
        job(0, LightPhase::Internal),
        job(1, LightPhase::Border),
        job(0, LightPhase::Border),
    ];
    let jobs = drain(&mut q);
    assert_eq!(jobs.len(), 12 * round.len());
    for k in 0..12 {
        assert_eq!(jobs[k * 4..k * 4 + 4].to_vec(), round);
    }
}

#[test]
fn stamp_without_neighbour_drops_the_rest() {
    let db = catalog();
    let mut w = world_with(&[0]);
    let mut q = LightUpdateQueue::new();
    let tree = BlockStructure::new_tree(2);
    assert_eq!(w.stamp_structure(&mut q, &db, &tree, 0, 30, 10), Ok(()));
    let c0 = w.get_chunk(0).unwrap();
    assert_eq!(c0.block(31, 12, BlockLayer::Foreground).id, 5);
    assert!(!w.has_chunk(1));
    assert_eq!(q.len(), 0);
    assert_eq!(w.stamp_structure(&mut q, &db, &tree, 5, 0, 0), Err(WorldError::ChunkNotLoaded(5)));
}

#[test]
fn stamp_above_world_is_dropped() {
    let db = catalog();
    let mut w = world_with(&[0]);
    let mut q = LightUpdateQueue::new();
    let house = BlockStructure::new_house();
    w.stamp_structure(&mut q, &db, &house, 0, 0, 253).unwrap();
    let c0 = w.get_chunk(0).unwrap();
    assert_eq!(c0.block(0, 253, BlockLayer::Foreground).id, 3);
    assert_eq!(c0.block(1, 254, BlockLayer::Foreground).id, 0);
    assert_eq!(c0.block(1, 254, BlockLayer::Background).id, 3);
    assert_eq!(c0.block(0, 255, BlockLayer::Foreground).id, 0);
}

#[test]
fn render_handles_are_replaced() {
    let mut w = World::new();
    assert_eq!(w.replace_render_handle(2, 77), None);
    assert_eq!(w.render_handle(2), Some(77));
    assert_eq!(w.replace_render_handle(2, 78), Some(77));
    assert_eq!(w.render_handle(2), Some(78));
    assert_eq!(w.render_handle(3), None);
}
