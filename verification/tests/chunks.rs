use ferrumc::chunks::decode_chunk;
use ferrumc::chunks::encode_chunk;
use ferrumc::chunks::Chunk;
use ferrumc::chunks::Database;

fn sample_chunk(x: i32, z: i32) -> Chunk {
    Chunk {
        x_pos: x,
        y_pos: -4,
        z_pos: z,
        heightmaps: vec![63, 64, 80, -5],
        block_states: vec![1, 2, 3, 9000000000],
        biomes: vec![0, 0, 7],
        block_entities: vec![10, 0, 9, 255],
        structures: vec![1, 2],
    }
}

fn assert_chunks_equal(a: &Chunk, b: &Chunk) {
    assert_eq!(a.x_pos, b.x_pos);
    assert_eq!(a.y_pos, b.y_pos);
    assert_eq!(a.z_pos, b.z_pos);
    assert_eq!(a.heightmaps, b.heightmaps);
    assert_eq!(a.block_states, b.block_states);
    assert_eq!(a.biomes, b.biomes);
    assert_eq!(a.block_entities, b.block_entities);
    assert_eq!(a.structures, b.structures);
}

#[test]
fn chunk_serialization_round_trips() {
    let c = sample_chunk(-3, 17);
    let data = encode_chunk(&c);
    let back = decode_chunk(&data).unwrap();
    assert_chunks_equal(&c, &back);
}

#[test]
fn chunk_decode_rejects_garbage() {
    assert!(decode_chunk(&vec![1, 2, 3]).is_none());
}

#[test]
fn s4_chunk_insert_get() {
    let mut db = Database::new();
    let c = sample_chunk(0, 0);
    assert_eq!(db.insert_chunk(sample_chunk(0, 0), "overworld"), Ok(false));
    let got = db.get_chunk(0, 0, "overworld").unwrap().unwrap();
    assert_chunks_equal(&got, &c);
    assert_eq!(db.insert_chunk(sample_chunk(0, 0), "overworld"), Ok(true));
}

#[test]
fn chunk_store_keys_by_dimension() {
    let mut db = Database::new();
    db.insert_chunk(sample_chunk(1, 2), "overworld").unwrap();
    assert_eq!(db.chunk_exists(1, 2, "overworld".to_string()), Ok(true));
    assert_eq!(db.chunk_exists(1, 2, "nether".to_string()), Ok(false));
    assert!(db.get_chunk(1, 2, "nether").unwrap().is_none());
    assert!(db.get_chunk(2, 1, "overworld").unwrap().is_none());
}

#[test]
fn update_chunk_reports_replacement() {
    let mut db = Database::new();
    assert_eq!(
        db.update_chunk(sample_chunk(4, 4), "overworld".to_string()),
        Ok(false)
    );
    let mut newer = sample_chunk(4, 4);
    newer.heightmaps = vec![99];
    assert_eq!(db.update_chunk(newer, "overworld".to_string()), Ok(true));
    let got = db.get_chunk(4, 4, "overworld").unwrap().unwrap();
    assert_eq!(got.heightmaps, vec![99]);
}

#[test]
fn p5_range_is_row_major() {
    let mut db = Database::new();
    db.insert_chunk(sample_chunk(0, 0), "overworld").unwrap();
    db.insert_chunk(sample_chunk(0, 1), "overworld").unwrap();
    db.insert_chunk(sample_chunk(1, 0), "overworld").unwrap();
    let range = db.get_chunk_range((0, 0), (2, 2), "overworld").unwrap();
    assert_eq!(range.len(), 4);
    let c00 = range[0].as_ref().unwrap();
    assert_eq!((c00.x_pos, c00.z_pos), (0, 0));
    let c01 = range[1].as_ref().unwrap();
    assert_eq!((c01.x_pos, c01.z_pos), (0, 1));
    let c10 = range[2].as_ref().unwrap();
    assert_eq!((c10.x_pos, c10.z_pos), (1, 0));
    assert!(range[3].is_none());
}

#[test]
fn empty_range_is_empty() {
    let db = Database::new();
    assert_eq!(db.get_chunk_range((3, 3), (3, 9), "overworld").unwrap().len(), 0);
    assert_eq!(db.get_chunk_range((5, 5), (2, 9), "overworld").unwrap().len(), 0);
}
