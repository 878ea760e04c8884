use minecraft_clone::position::BlockPosition;
use minecraft_clone::position::ChunkPosition;
use minecraft_clone::position::IVec3;
use minecraft_clone::position::MilliVec3;

fn splat(v: i32) -> IVec3 {
    IVec3 { x: v, y: v, z: v }
}

fn scaled(p: ChunkPosition, s: i32) -> IVec3 {
    IVec3 { x: p.index.x * s, y: p.index.y * s, z: p.index.z * s }
}

#[test]
fn test_position() {
    let cs = 16i32;
    for i in 0..cs {
        let position = BlockPosition { index: splat(i32::MIN + i) };
        assert_eq!(scaled(position.chunk(), cs), splat(i32::MIN));
    }
    for i in 0..cs {
        let position = BlockPosition { index: splat(i32::MIN + cs + i) };
        assert_eq!(scaled(position.chunk(), cs), splat(i32::MIN + cs));
    }
    for i in 0..cs {
        let position = BlockPosition { index: splat(-cs + i) };
        assert_eq!(scaled(position.chunk(), cs), splat(-cs));
    }
    for i in 0..cs {
        let position = BlockPosition { index: splat(i) };
        assert_eq!(scaled(position.chunk(), 8), splat(0));
    }
    for i in 0..cs {
        let position = BlockPosition { index: splat(cs + i) };
        assert_eq!(scaled(position.chunk(), cs), splat(cs));
    }
    for i in 0..cs {
        let position = BlockPosition { index: splat(i32::MAX - i) };
        assert_eq!(scaled(position.chunk(), cs), splat(i32::MAX - cs + 1));
    }
}

#[test]
fn normalize_moves_whole_chunks() {
    let chunk = ChunkPosition { index: IVec3 { x: 0, y: 3, z: 0 } };
    // one chunk forward in x, slightly negative in z
    let (c, off) = chunk.normalize(MilliVec3 { x: 17_500, y: 100, z: -200 });
    assert_eq!(c.index, IVec3 { x: 1, y: 3, z: -1 });
    assert_eq!(off, MilliVec3 { x: 1_500, y: 100, z: 15_800 });
    // already in range: nothing moves
    let (c2, off2) = chunk.normalize(MilliVec3 { x: 0, y: 15_999, z: 7 });
    assert_eq!(c2.index, chunk.index);
    assert_eq!(off2, MilliVec3 { x: 0, y: 15_999, z: 7 });
}
