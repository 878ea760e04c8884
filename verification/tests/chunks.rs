use minecraft_clone::chunk::Block;
use minecraft_clone::chunk::Chunk;
use minecraft_clone::chunk::Transparency;
use minecraft_clone::mesh::ChunkMesh;
use minecraft_clone::mesh::ChunkNeighbours;

fn air_chunk() -> Chunk {
    let mut c = Chunk::new();
    c.compute_transparency();
    c
}

fn full_chunk(block: Block) -> Chunk {
    let mut c = Chunk::new();
    for x in 0..16 {
        for y in 0..16 {
            for z in 0..16 {
                c.set_block_local(x, y, z, block);
            }
        }
    }
    c.compute_transparency();
    c
}

/// A brute-force boundary scan, written independently of the library.
fn brute_force_face(c: &Chunk, f: Transparency) -> bool {
    for i in 0..16 {
        for j in 0..16 {
            let (x, y, z) = match f {
                Transparency::PosX => (15, i, j),
                Transparency::NegX => (0, i, j),
                Transparency::PosY => (i, 15, j),
                Transparency::NegY => (i, 0, j),
                Transparency::PosZ => (i, j, 15),
                Transparency::NegZ => (i, j, 0),
                Transparency::Computed => return false,
            };
            if c.get_block(x, y, z).transparent() {
                return true;
            }
        }
    }
    false
}

const FACES: [Transparency; 6] = [
    Transparency::PosX,
    Transparency::NegX,
    Transparency::PosY,
    Transparency::NegY,
    Transparency::PosZ,
    Transparency::NegZ,
];

#[test]
fn transparency_of_empty_chunk_matches_brute_force() {
    let c = air_chunk();
    assert_eq!(c.transparency, 0xFF);
    assert!(c.get_transparency(Transparency::Computed));
    for f in FACES {
        assert_eq!(c.get_transparency(f), brute_force_face(&c, f));
        assert!(c.get_transparency(f));
    }
}

#[test]
fn transparency_of_full_chunk_matches_brute_force() {
    let c = full_chunk(Block::Stone);
    assert_eq!(c.transparency, 0x40);
    assert!(c.get_transparency(Transparency::Computed));
    for f in FACES {
        assert_eq!(c.get_transparency(f), brute_force_face(&c, f));
        assert!(!c.get_transparency(f));
    }
}

#[test]
fn transparency_of_mixed_chunk_matches_brute_force() {
    let mut c = full_chunk(Block::Dirt);
    // one air pocket in the low corner opens exactly three faces
    c.set_block_local(0, 0, 0, Block::Air);
    c.compute_transparency();
    for f in FACES {
        assert_eq!(c.get_transparency(f), brute_force_face(&c, f));
    }
    assert!(c.get_transparency(Transparency::NegX));
    assert!(c.get_transparency(Transparency::NegY));
    assert!(c.get_transparency(Transparency::NegZ));
    assert!(!c.get_transparency(Transparency::PosX));
    assert!(!c.get_transparency(Transparency::PosY));
    assert!(!c.get_transparency(Transparency::PosZ));
}

#[test]
fn occupancy_counter_tracks_any_write_sequence() {
    let mut c = Chunk::new();
    let writes: [(usize, usize, usize, Block); 9] = [
        (0, 0, 0, Block::Stone),
        (0, 0, 0, Block::Stone),
        (1, 2, 3, Block::Dirt),
        (1, 2, 3, Block::Air),
        (15, 15, 15, Block::Sand),
        (7, 8, 9, Block::Water),
        (7, 8, 9, Block::Button),
        (0, 0, 0, Block::Air),
        (4, 4, 4, Block::Dirt),
    ];
    for (x, y, z, b) in writes {
        c.set_block_local(x, y, z, b);
        let mut counted = 0u16;
        for i in 0..16 {
            for j in 0..16 {
                for k in 0..16 {
                    if c.get_block(i, j, k) != Block::Air {
                        counted += 1;
                    }
                }
            }
        }
        assert_eq!(c.non_air_block_count, counted);
    }
}

#[test]
fn block_ids_round_trip() {
    let blocks = [
        Block::Air,
        Block::Dirt,
        Block::Stone,
        Block::Sand,
        Block::Water,
        Block::Button,
    ];
    for b in blocks {
        assert_eq!(Block::from_id(b.id()), Some(b));
    }
    assert_eq!(Block::from_id(6), None);
    assert_eq!(Block::from_id(255), None);
    assert!(Block::Air.transparent());
    assert!(Block::Water.transparent());
    assert!(!Block::Sand.transparent());
    assert!(!Block::Button.transparent());
}

#[test]
fn water_occupies_but_stays_transparent() {
    // a chunk full of water is fully occupied...
    let c = full_chunk(Block::Water);
    assert_eq!(c.non_air_block_count, 4096);
    // ...yet every face still shows transparent blocks, matching the
    // brute-force scan
    for f in FACES {
        assert_eq!(c.get_transparency(f), brute_force_face(&c, f));
        assert!(c.get_transparency(f));
    }
}

#[test]
fn isolated_block_meshes_to_six_faces() {
    let mut c = Chunk::new();
    c.set_block_local(8, 8, 8, Block::Dirt);
    c.compute_transparency();
    let a0 = air_chunk();
    let a1 = air_chunk();
    let a2 = air_chunk();
    let a3 = air_chunk();
    let a4 = air_chunk();
    let a5 = air_chunk();
    let neighbours = ChunkNeighbours {
        pos_x: &a0,
        neg_x: &a1,
        pos_y: &a2,
        neg_y: &a3,
        pos_z: &a4,
        neg_z: &a5,
    };
    let mesh = ChunkMesh::generate(&c, neighbours);
    assert_eq!(mesh.vertices.len(), 24);
    assert_eq!(mesh.indices.len(), 36);
}

#[test]
fn enclosed_solid_block_meshes_to_zero_faces() {
    let c = full_chunk(Block::Stone);
    let s0 = full_chunk(Block::Stone);
    let s1 = full_chunk(Block::Stone);
    let s2 = full_chunk(Block::Stone);
    let s3 = full_chunk(Block::Stone);
    let s4 = full_chunk(Block::Stone);
    let s5 = full_chunk(Block::Stone);
    let neighbours = ChunkNeighbours {
        pos_x: &s0,
        neg_x: &s1,
        pos_y: &s2,
        neg_y: &s3,
        pos_z: &s4,
        neg_z: &s5,
    };
    let mesh = ChunkMesh::generate(&c, neighbours);
    assert_eq!(mesh.vertices.len(), 0);
    assert_eq!(mesh.indices.len(), 0);
}
