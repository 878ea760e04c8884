use minecraft_clone::chunk::Block;
use minecraft_clone::position::BlockPosition;
use minecraft_clone::position::ChunkPosition;
use minecraft_clone::position::IVec3;
use minecraft_clone::position::MilliVec3;
use minecraft_clone::world::World;

fn chunk_at(x: i32, y: i32, z: i32) -> ChunkPosition {
    ChunkPosition { index: IVec3 { x, y, z } }
}

fn block_at(x: i32, y: i32, z: i32) -> BlockPosition {
    BlockPosition { index: IVec3 { x, y, z } }
}

#[test]
fn new_world_queues_every_column_nearest_first() {
    let w = World::new(12, 16);
    assert_eq!(w.generation_queue.len(), 625);
    let entries: Vec<(i32, i32, i32)> = w.generation_queue.iter().copied().collect();
    // nearest first: nondecreasing squared horizontal distance
    for pair in entries.windows(2) {
        let k0 = pair[0].0 * pair[0].0 + pair[0].2 * pair[0].2;
        let k1 = pair[1].0 * pair[1].0 + pair[1].2 * pair[1].2;
        assert!(k0 <= k1);
    }
    assert_eq!(entries[0], (0, w.highest_generated_chunk, 0));
    // every column appears exactly once
    for x in -12..=12 {
        for z in -12..=12 {
            let n = entries
                .iter()
                .filter(|e| **e == (x, w.highest_generated_chunk, z))
                .count();
            assert_eq!(n, 1);
        }
    }
    assert_eq!(w.lowest_generated_chunk, -8);
    assert_eq!(w.highest_generated_chunk, 7);
}

#[test]
fn set_block_in_absent_chunk_is_refused() {
    let mut w = World::new(2, 2);
    assert!(w.set_block(block_at(5, 5, 5), Block::Stone).is_none());
    assert!(w.get_chunk(chunk_at(0, 0, 0)).is_none());
}

#[test]
fn set_block_copies_the_shared_air_chunk_on_first_write() {
    let mut w = World::new(2, 2);
    w.add_air_chunk(chunk_at(0, 0, 0));
    w.add_air_chunk(chunk_at(1, 0, 0));
    // writing air into a shared air chunk changes nothing
    assert!(w.set_block(block_at(1, 2, 3), Block::Air).is_none());
    // a solid write gives the chunk its own storage
    assert_eq!(w.set_block(block_at(1, 2, 3), Block::Stone), Some(Block::Air));
    assert_eq!(
        w.get_chunk(chunk_at(0, 0, 0)).unwrap().get_block(1, 2, 3),
        Block::Stone
    );
    // the sibling still reads from the untouched shared chunk
    assert_eq!(
        w.get_chunk(chunk_at(1, 0, 0)).unwrap().get_block(1, 2, 3),
        Block::Air
    );
    // overwriting returns the previous block
    assert_eq!(w.set_block(block_at(1, 2, 3), Block::Dirt), Some(Block::Stone));
    assert_eq!(w.get_chunk(chunk_at(0, 0, 0)).unwrap().non_air_block_count, 1);
}

#[test]
fn ray_march_straddles_the_struck_block() {
    let mut w = World::new(2, 2);
    w.add_air_chunk(chunk_at(0, 0, 0));
    w.set_block(block_at(5, 5, 5), Block::Stone);
    let (last_transparent, first_solid) = w.find_nearest_block_on_ray(
        chunk_at(0, 0, 0),
        MilliVec3 { x: 0, y: 5_500, z: 5_500 },
        MilliVec3 { x: 1_000, y: 0, z: 0 },
        6,
    );
    assert_eq!(first_solid, Some(block_at(5, 5, 5)));
    assert_eq!(last_transparent, Some(block_at(4, 5, 5)));
}

#[test]
fn degenerate_ray_reports_no_hit() {
    let mut w = World::new(2, 2);
    w.add_air_chunk(chunk_at(0, 0, 0));
    w.set_block(block_at(5, 5, 5), Block::Stone);
    let r = w.find_nearest_block_on_ray(
        chunk_at(0, 0, 0),
        MilliVec3 { x: 0, y: 5_500, z: 5_500 },
        MilliVec3 { x: 0, y: 0, z: 0 },
        6,
    );
    assert_eq!(r, (None, None));
    // a ray that never reaches the block within its budget
    let r2 = w.find_nearest_block_on_ray(
        chunk_at(0, 0, 0),
        MilliVec3 { x: 0, y: 5_500, z: 5_500 },
        MilliVec3 { x: 1_000, y: 0, z: 0 },
        3,
    );
    assert_eq!(r2, (None, None));
}

#[test]
fn collide_treats_absent_chunks_as_solid() {
    let mut w = World::new(2, 2);
    assert!(w.collide(chunk_at(0, 0, 0), MilliVec3 { x: 500, y: 500, z: 500 }));
    w.add_air_chunk(chunk_at(0, 0, 0));
    assert!(!w.collide(chunk_at(0, 0, 0), MilliVec3 { x: 500, y: 500, z: 500 }));
    w.set_block(block_at(0, 0, 0), Block::Stone);
    assert!(w.collide(chunk_at(0, 0, 0), MilliVec3 { x: 500, y: 500, z: 500 }));
    assert!(!w.collide(chunk_at(0, 0, 0), MilliVec3 { x: 1_500, y: 500, z: 500 }));
    // water is not solid: the player can move through it
    w.set_block(block_at(2, 0, 0), Block::Water);
    assert!(!w.collide(chunk_at(0, 0, 0), MilliVec3 { x: 2_500, y: 500, z: 500 }));
}

#[test]
fn crop_removes_exactly_the_chunks_beyond_view_distance() {
    let mut w = World::new(12, 16);
    let near = [chunk_at(0, 0, 0), chunk_at(12, 0, 0), chunk_at(3, 4, 0)];
    let far = [chunk_at(13, 0, 0), chunk_at(20, 0, 0), chunk_at(9, 9, 9)];
    for p in near.iter().chain(far.iter()) {
        w.add_air_chunk(*p);
    }
    let player = chunk_at(0, 0, 0);
    let removed = w.crop(player);
    // exactly the far chunks disappear: distance squared beyond 144
    assert_eq!(removed.len(), far.len());
    for p in far {
        assert!(removed.iter().any(|r| r.index == p.index));
        assert!(w.get_chunk(p).is_none());
    }
    for p in near {
        assert!(!removed.iter().any(|r| r.index == p.index));
        assert!(w.get_chunk(p).is_some());
    }
}

#[test]
fn updated_meshes_drain_the_queue() {
    let mut w = World::new(2, 2);
    // a 3x3x3 block of resident chunks so the center has neighbours
    for x in -1..=1 {
        for y in -1..=1 {
            for z in -1..=1 {
                w.add_air_chunk(chunk_at(x, y, z));
            }
        }
    }
    w.set_block(block_at(8, 8, 8), Block::Stone);
    let updates = w.get_updated_meshes();
    assert_eq!(w.mesh_queue.len(), 0);
    // the written chunk is among the drained updates, with one cube
    let center = updates
        .iter()
        .find(|u| u.data.chunk_x == 0 && u.data.chunk_y == 0 && u.data.chunk_z == 0)
        .unwrap();
    assert_eq!(center.data.vertex_count, 24);
    assert_eq!(center.data.index_count, 36);
    assert_eq!(center.data.is_full_and_invisible, 0);
    assert_eq!(center.mesh.vertices.len(), 24);
    assert_eq!(center.mesh.indices.len(), 36);
}

#[test]
fn identical_write_changes_nothing() {
    let mut w = World::new(2, 2);
    w.add_air_chunk(chunk_at(0, 0, 0));
    w.set_block(block_at(3, 3, 3), Block::Stone);
    let queue_before = w.mesh_queue.len();
    let mask_before = w.get_chunk(chunk_at(0, 0, 0)).unwrap().transparency;
    // writing the same block again is a complete no-op
    assert_eq!(w.set_block(block_at(3, 3, 3), Block::Stone), Some(Block::Stone));
    assert_eq!(w.mesh_queue.len(), queue_before);
    let c = w.get_chunk(chunk_at(0, 0, 0)).unwrap();
    assert_eq!(c.transparency, mask_before);
    assert_eq!(c.non_air_block_count, 1);
}
