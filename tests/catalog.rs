use rustaria::block::{Block, BlockData, BlockDatabase, BlockLayer, WorldError};
use rustaria::block_structure::BlockStructure;
use rustaria::chunk::Chunk;

fn entry(is_solid: bool, durability: u8, drop_item: u32, light_emission: u8) -> BlockData {
    BlockData { is_solid, durability, drop_item, light_emission }
}

#[test]
fn air_is_id_zero() {
    let db = BlockDatabase::new(vec![entry(true, 3, 11, 0)]).unwrap();
    let air = db.get_by_id(0).unwrap();
    assert_eq!(air, Block::air());
    assert_eq!(air.id, 0);
    assert!(!air.is_solid);
    assert_eq!(air.drop_item, 0);
    assert_eq!(air.light_emission, 0);
}

#[test]
fn lookup_fills_the_block() {
    let db = BlockDatabase::new(vec![entry(true, 3, 11, 0), entry(false, 1, 12, 14)]).unwrap();
    assert_eq!(db.len(), 2);
    let b = db.get_by_id(2).unwrap();
    assert_eq!(
        b,
        Block { id: 2, is_solid: false, durability: 1, drop_item: 12, light_emission: 14, light: 0 }
    );
    let d = db.get_by_id(1).unwrap();
    assert_eq!(d.id, 1);
    assert!(d.is_solid);
    assert_eq!(d.drop_item, 11);
}

#[test]
fn unknown_id_is_rejected() {
    let db = BlockDatabase::new(vec![entry(true, 3, 11, 0)]).unwrap();
    assert_eq!(db.get_by_id(2), Err(WorldError::UnknownBlockId(2)));
    assert_eq!(db.get_by_id(u32::MAX), Err(WorldError::UnknownBlockId(u32::MAX)));
}

#[test]
fn emission_above_range_is_rejected() {
    let r = BlockDatabase::new(vec![entry(true, 3, 11, 0), entry(false, 0, 0, 16), entry(false, 0, 0, 20)]);
    assert!(matches!(r, Err(WorldError::EmissionOutOfRange(2))));
    assert!(BlockDatabase::new(vec![entry(false, 0, 0, 15)]).is_ok());
}

#[test]
fn new_chunk_is_air() {
    let c = Chunk::new(-3);
    assert_eq!(c.position(), -3);
    for x in 0..32 {
        for y in [0usize, 100, 255] {
            assert_eq!(c.block(x, y, BlockLayer::Foreground), Block::air());
            assert_eq!(c.block(x, y, BlockLayer::Background), Block::air());
        }
    }
    let p = Chunk::placeholder();
    assert_eq!(p.position(), i32::MAX);
    assert_eq!(p.block(31, 255, BlockLayer::Foreground).light, 0);
}

#[test]
fn tree_shape() {
    let t = BlockStructure::new_tree(3);
    assert_eq!(t.height(), 7);
    assert_eq!(t.width(), 5);
    assert!(!t.fill_air);
    for j in 0..3 {
        assert_eq!(t.data[j], vec![0, 0, 4, 0, 0]);
    }
    assert_eq!(t.data[3], vec![5, 5, 5, 5, 5]);
    assert_eq!(t.data[4], vec![5, 5, 5, 5, 5]);
    assert_eq!(t.data[5], vec![0, 5, 5, 5, 0]);
    assert_eq!(t.data[6], vec![0, 5, 5, 5, 0]);
    assert_eq!(t.bg_data.len(), 7);
    assert!(t.bg_data.iter().all(|r| r == &vec![0, 0, 0, 0, 0]));
}

#[test]
fn tree_without_trunk() {
    let t = BlockStructure::new_tree(0);
    assert_eq!(t.height(), 4);
    assert_eq!(t.data[0], vec![5, 5, 5, 5, 5]);
}

#[test]
fn house_shape() {
    let h = BlockStructure::new_house();
    assert_eq!(h.height(), 5);
    assert_eq!(h.width(), 6);
    assert!(h.fill_air);
    assert_eq!(h.data[0], vec![3, 3, 3, 3, 3, 3]);
    assert_eq!(h.data[1], vec![0, 0, 0, 0, 0, 0]);
    assert_eq!(h.data[2], vec![0, 0, 0, 0, 0, 0]);
    assert_eq!(h.data[3], vec![3, 0, 0, 0, 0, 3]);
    assert_eq!(h.data[4], vec![3, 3, 3, 3, 3, 3]);
    assert!(h.bg_data.iter().all(|r| r == &vec![3, 3, 3, 3, 3, 3]));
}
