use mining_techniques::MiningError;
use mining_techniques::lookup::CachingLookup;
use mining_techniques::world::ChunkData;
use mining_techniques::world::InMemoryShard;

fn stone_shard() -> InMemoryShard {
    let mut shard = InMemoryShard::new();
    let stone = String::from("stone");
    shard.set_chunk(6, 6, ChunkData::filled(0, 128, &stone));
    shard
}

#[test]
fn get_block_reads_the_stored_identity() {
    let mut lookup = CachingLookup::new(stone_shard());
    // chunk (6, 6) covers columns 96..112
    assert_eq!(lookup.get_block((100, 64, 100)), Ok(String::from("stone")));
    // an untouched chunk holds nothing
    assert_eq!(lookup.get_block((10, 64, 10)), Ok(String::from("void")));
}

#[test]
fn y_outside_the_stored_range_answers_void() {
    let mut lookup = CachingLookup::new(stone_shard());
    assert_eq!(lookup.get_block((100, 127, 100)), Ok(String::from("stone")));
    assert_eq!(lookup.get_block((100, 128, 100)), Ok(String::from("void")));
    assert_eq!(lookup.get_block((100, -1, 100)), Ok(String::from("void")));
}

#[test]
fn out_of_grid_coordinates_fail_with_out_of_range() {
    let mut lookup = CachingLookup::new(stone_shard());
    assert_eq!(lookup.get_block((-1, 64, 0)), Err(MiningError::OutOfRange));
    assert_eq!(lookup.get_block((512, 64, 0)), Err(MiningError::OutOfRange));
    assert_eq!(lookup.get_block((0, 64, -16)), Err(MiningError::OutOfRange));
    assert_eq!(lookup.get_block((0, 64, 512)), Err(MiningError::OutOfRange));
    // a failed query performs no decode
    assert_eq!(lookup.decode_count(), 0);
}

#[test]
fn repeated_queries_decode_each_chunk_once() {
    let mut lookup = CachingLookup::new(stone_shard());
    assert_eq!(lookup.decode_count(), 0);
    lookup.get_block((100, 64, 100)).unwrap();
    assert_eq!(lookup.decode_count(), 1);
    // same coordinate again: a cache hit, no second decode
    lookup.get_block((100, 64, 100)).unwrap();
    assert_eq!(lookup.decode_count(), 1);
    // a different column of the same chunk: still a hit
    lookup.get_block((111, 2, 97)).unwrap();
    assert_eq!(lookup.decode_count(), 1);
    // a column of another chunk: one more decode
    lookup.get_block((300, 64, 300)).unwrap();
    assert_eq!(lookup.decode_count(), 2);
}

#[test]
fn set_ident_changes_exactly_one_block() {
    let stone = String::from("stone");
    let mut chunk = ChunkData::filled(0, 64, &stone);
    chunk.set_ident(3, 5, 40, String::from("diamond_ore"));
    let mut shard = InMemoryShard::new();
    shard.set_chunk(0, 0, chunk);
    let mut lookup = CachingLookup::new(shard);
    assert_eq!(lookup.get_block((3, 40, 5)), Ok(String::from("diamond_ore")));
    assert_eq!(lookup.get_block((4, 40, 5)), Ok(String::from("stone")));
    assert_eq!(lookup.get_block((3, 41, 5)), Ok(String::from("stone")));
}
