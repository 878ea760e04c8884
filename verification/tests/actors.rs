use minecraft_clone::chunk::Block;
use minecraft_clone::generator::GeneratorState;
use minecraft_clone::position::ChunkPosition;
use minecraft_clone::position::IVec3;
use minecraft_clone::simulation::SimulationState;
use minecraft_clone::terrain::TerrainGenerator;
use minecraft_clone::terrain::WorldSeed;
use minecraft_clone::worker::MessageTag;
use minecraft_clone::worker::WorkerId;
use minecraft_clone::worker::WorkerMessage;

fn chunk_at(x: i32, y: i32, z: i32) -> ChunkPosition {
    ChunkPosition { index: IVec3 { x, y, z } }
}

fn message(bytes: Vec<u8>) -> WorkerMessage {
    WorkerMessage { sender: WorkerId::Parent, bytes }
}

fn init_generator_message(seed: u64, highest: i32, lowest: i32) -> WorkerMessage {
    let mut bytes = seed.to_le_bytes().to_vec();
    bytes.extend_from_slice(&highest.to_le_bytes());
    bytes.extend_from_slice(&lowest.to_le_bytes());
    bytes.push(MessageTag::InitGenerator.byte());
    message(bytes)
}

fn generate_column_message(x: i32, z: i32) -> WorkerMessage {
    let mut bytes = x.to_le_bytes().to_vec();
    bytes.extend_from_slice(&z.to_le_bytes());
    bytes.push(MessageTag::GenerateColumn.byte());
    message(bytes)
}

#[test]
fn fill_chunk_is_deterministic() {
    let g1 = TerrainGenerator::new(WorldSeed(42));
    let g2 = TerrainGenerator::new(WorldSeed(42));
    let p = chunk_at(0, 0, 0);
    let (c1, i1) = g1.fill_chunk(p);
    let (c2, i2) = g2.fill_chunk(p);
    assert_eq!(i1.non_air_block_count, i2.non_air_block_count);
    match (c1, c2) {
        (Some(a), Some(b)) => {
            assert_eq!(a.blocks, b.blocks);
            assert_eq!(a.transparency, b.transparency);
            assert_eq!(a.non_air_block_count, b.non_air_block_count);
        },
        (None, None) => {},
        _ => panic!("one generator produced a chunk and the other did not"),
    }
    // order of requests does not matter either
    let q = chunk_at(3, -1, -2);
    let (d1, _) = g1.fill_chunk(q);
    let (d2, _) = g2.fill_chunk(q);
    assert_eq!(d1.map(|c| c.blocks), d2.map(|c| c.blocks));
}

#[test]
fn different_seeds_give_different_terrain() {
    let g1 = TerrainGenerator::new(WorldSeed(1));
    let g2 = TerrainGenerator::new(WorldSeed(2));
    let p = chunk_at(0, 0, 0);
    let b1 = g1.fill_chunk(p).0.map(|c| c.blocks);
    let b2 = g2.fill_chunk(p).0.map(|c| c.blocks);
    assert_ne!(b1, b2);
}

#[test]
fn message_tags_round_trip() {
    let tags = [
        MessageTag::InitSimulation,
        MessageTag::InitGenerator,
        MessageTag::GenerateColumn,
        MessageTag::GenerateColumnReply,
        MessageTag::MeshData,
        MessageTag::ChunkRemoval,
        MessageTag::ChunkInfo,
        MessageTag::PlayerCommand,
        MessageTag::MovementCommand,
        MessageTag::MovementCommandReply,
    ];
    for t in tags {
        assert_eq!(MessageTag::from_byte(t.byte()), Some(t));
    }
    assert_eq!(MessageTag::from_byte(10), None);
}

#[test]
fn generator_rejects_malformed_messages() {
    assert!(GeneratorState::initialize(&message(vec![0, 1, 2])).is_err());
    let g = GeneratorState::initialize(&init_generator_message(7, 1, -1)).unwrap();
    assert!(g.update(&message(vec![])).is_err());
    assert!(g.update(&message(vec![1, 2, MessageTag::GenerateColumn.byte()])).is_err());
}

#[test]
fn generated_column_feeds_the_simulation_world() {
    let seed = 42u64;
    let generator = GeneratorState::initialize(&init_generator_message(seed, 7, -8)).unwrap();
    let replies = generator.update(&generate_column_message(0, 0)).unwrap();
    assert_eq!(replies.len(), 2);
    assert_eq!(
        *replies[0].bytes.last().unwrap(),
        MessageTag::GenerateColumnReply.byte()
    );
    assert_eq!(*replies[1].bytes.last().unwrap(), MessageTag::ChunkInfo.byte());

    let mut init = seed.to_le_bytes().to_vec();
    init.push(MessageTag::InitSimulation.byte());
    let (mut sim, startup) = SimulationState::initialize(&message(init), 2).unwrap();
    // two generator initializations, then 625 column requests
    assert_eq!(startup.len(), 2 + 625);

    let reply = WorkerMessage {
        sender: WorkerId::Child(0),
        bytes: replies[0].bytes.clone(),
    };
    sim.update(Some(&reply)).unwrap();
    // the whole column is now resident
    for y in -8..=7 {
        assert!(sim.world.get_chunk(chunk_at(0, y, 0)).is_some());
    }
    // and a generated chunk matches what the generator itself computed
    let direct = TerrainGenerator::new(WorldSeed(seed));
    for y in [0, 3] {
        let expected = direct.fill_chunk(chunk_at(0, y, 0)).0;
        let stored = sim.world.get_chunk(chunk_at(0, y, 0)).unwrap();
        match expected {
            Some(c) => assert_eq!(stored.blocks, c.blocks),
            None => assert_eq!(stored.non_air_block_count, 0),
        }
    }
}

#[test]
fn chunk_info_messages_are_forwarded_to_the_parent() {
    let mut init = 5u64.to_le_bytes().to_vec();
    init.push(MessageTag::InitSimulation.byte());
    let (mut sim, _) = SimulationState::initialize(&message(init), 1).unwrap();
    let mut info = vec![1, 2, 3, 4];
    info.push(MessageTag::ChunkInfo.byte());
    let (out, delay) = sim.update(Some(&message(info.clone()))).unwrap();
    assert_eq!(out.len(), 1);
    assert_eq!(out[0].to, WorkerId::Parent);
    assert_eq!(out[0].bytes, info);
    assert!(delay.is_none());
}

#[test]
fn movement_command_answers_with_the_player_position() {
    let mut init = 5u64.to_le_bytes().to_vec();
    init.push(MessageTag::InitSimulation.byte());
    let (mut sim, _) = SimulationState::initialize(&message(init), 1).unwrap();
    let mut movement = 0i32.to_le_bytes().to_vec();
    movement.extend_from_slice(&0i32.to_le_bytes());
    movement.extend_from_slice(&0i32.to_le_bytes());
    movement.push(MessageTag::MovementCommand.byte());
    let (out, delay) = sim.update(Some(&message(movement))).unwrap();
    assert_eq!(delay, Some(0));
    assert_eq!(out.len(), 1);
    assert_eq!(out[0].to, WorkerId::Parent);
    let b = &out[0].bytes;
    assert_eq!(b.len(), 25);
    assert_eq!(*b.last().unwrap(), MessageTag::MovementCommandReply.byte());
    let chunk_y = i32::from_le_bytes([b[4], b[5], b[6], b[7]]);
    assert_eq!(chunk_y, 3);
}

#[test]
fn unexpected_tags_abort_the_simulation() {
    let mut init = 5u64.to_le_bytes().to_vec();
    init.push(MessageTag::InitSimulation.byte());
    let (mut sim, _) = SimulationState::initialize(&message(init.clone()), 1).unwrap();
    assert!(sim.update(Some(&message(init))).is_err());
    assert!(sim.update(Some(&message(vec![255]))).is_err());
    assert!(sim.update(Some(&message(vec![]))).is_err());
    // a plain tick is fine
    assert!(sim.update(None).is_ok());
}

#[test]
fn block_sphere_is_placed_around_the_struck_block() {
    let mut init = 5u64.to_le_bytes().to_vec();
    init.push(MessageTag::InitSimulation.byte());
    let (mut sim, _) = SimulationState::initialize(&message(init), 1).unwrap();
    sim.world.add_air_chunk(chunk_at(0, 0, 0));
    sim.world
        .set_block(minecraft_clone::position::BlockPosition { index: IVec3 { x: 5, y: 5, z: 5 } }, Block::Stone);
    // break a sphere of diameter 1 at the struck block
    let mut cmd: Vec<u8> = Vec::new();
    cmd.extend_from_slice(&0i32.to_le_bytes());
    cmd.extend_from_slice(&0i32.to_le_bytes());
    cmd.extend_from_slice(&0i32.to_le_bytes());
    cmd.extend_from_slice(&0i32.to_le_bytes());
    cmd.extend_from_slice(&5_500i32.to_le_bytes());
    cmd.extend_from_slice(&5_500i32.to_le_bytes());
    cmd.extend_from_slice(&1_000i32.to_le_bytes());
    cmd.extend_from_slice(&0i32.to_le_bytes());
    cmd.extend_from_slice(&0i32.to_le_bytes());
    cmd.extend_from_slice(&(-1i32).to_le_bytes());
    cmd.push(MessageTag::PlayerCommand.byte());
    sim.update(Some(&message(cmd))).unwrap();
    let chunk = sim.world.get_chunk(chunk_at(0, 0, 0)).unwrap();
    assert_eq!(chunk.get_block(5, 5, 5), Block::Air);
}

#[test]
fn movement_through_open_air_commits_the_displacement() {
    let mut init = 5u64.to_le_bytes().to_vec();
    init.push(MessageTag::InitSimulation.byte());
    let (mut sim, _) = SimulationState::initialize(&message(init), 1).unwrap();
    // the player starts in chunk (0, 3, 0); open up its surroundings
    for x in -1..=1 {
        for y in 2..=4 {
            for z in -1..=1 {
                sim.world.add_air_chunk(chunk_at(x, y, z));
            }
        }
    }
    let mut movement = 1_000i32.to_le_bytes().to_vec();
    movement.extend_from_slice(&0i32.to_le_bytes());
    movement.extend_from_slice(&0i32.to_le_bytes());
    movement.push(MessageTag::MovementCommand.byte());
    let (out, _) = sim.update(Some(&message(movement))).unwrap();
    assert_eq!(sim.player_position.x, 7_000);
    assert_eq!(sim.player_position.y, 6_000);
    assert_eq!(sim.player_chunk.index, IVec3 { x: 0, y: 3, z: 0 });
    let b = &out[0].bytes;
    let px = i32::from_le_bytes([b[12], b[13], b[14], b[15]]);
    assert_eq!(px, 7_000);
}

#[test]
fn breaking_a_sphere_clears_every_voxel_in_it() {
    let mut init = 5u64.to_le_bytes().to_vec();
    init.push(MessageTag::InitSimulation.byte());
    let (mut sim, _) = SimulationState::initialize(&message(init), 1).unwrap();
    sim.world.add_air_chunk(chunk_at(0, 0, 0));
    // a small stone pillar around (5,5,5)
    for y in 4..=6 {
        for z in 4..=6 {
            sim.world.set_block(
                minecraft_clone::position::BlockPosition { index: IVec3 { x: 5, y, z } },
                Block::Stone,
            );
        }
    }
    // break a sphere of diameter 3 at the struck block
    let mut cmd: Vec<u8> = Vec::new();
    cmd.extend_from_slice(&0i32.to_le_bytes());
    cmd.extend_from_slice(&0i32.to_le_bytes());
    cmd.extend_from_slice(&0i32.to_le_bytes());
    cmd.extend_from_slice(&0i32.to_le_bytes());
    cmd.extend_from_slice(&5_500i32.to_le_bytes());
    cmd.extend_from_slice(&5_500i32.to_le_bytes());
    cmd.extend_from_slice(&1_000i32.to_le_bytes());
    cmd.extend_from_slice(&0i32.to_le_bytes());
    cmd.extend_from_slice(&0i32.to_le_bytes());
    cmd.extend_from_slice(&(-3i32).to_le_bytes());
    cmd.push(MessageTag::PlayerCommand.byte());
    sim.update(Some(&message(cmd))).unwrap();
    let chunk = sim.world.get_chunk(chunk_at(0, 0, 0)).unwrap();
    // the diameter-3 ball around the hit: the center and its six
    // face neighbours
    assert_eq!(chunk.get_block(5, 5, 5), Block::Air);
    assert_eq!(chunk.get_block(5, 4, 5), Block::Air);
    assert_eq!(chunk.get_block(5, 6, 5), Block::Air);
    assert_eq!(chunk.get_block(5, 5, 4), Block::Air);
    assert_eq!(chunk.get_block(5, 5, 6), Block::Air);
    // the diagonal corners of the pillar are outside the ball
    assert_eq!(chunk.get_block(5, 4, 4), Block::Stone);
    assert_eq!(chunk.get_block(5, 6, 6), Block::Stone);
}
