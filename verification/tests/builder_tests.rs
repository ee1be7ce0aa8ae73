use brickworld::brick::{Color, GridPos};
use brickworld::builder::{process_heightmap, setup_voxels, ConfigurationError, Heightmap, Palette};
use brickworld::extract::StreamingPos;

fn grass() -> Color {
    Color { r: 62, g: 204, b: 18, a: 255 }
}

fn dirt() -> Color {
    Color { r: 134, g: 96, b: 67, a: 255 }
}

fn palette() -> Palette {
    Palette { grass: grass(), dirt: dirt() }
}

fn flat_heightmap(size: usize, value: u32) -> Heightmap {
    Heightmap(vec![vec![value; size]; size])
}

fn origin() -> StreamingPos {
    StreamingPos { x: 0, y: 0, z: 0 }
}

#[test]
fn palette_resolve_requires_both_entries() {
    assert_eq!(Palette::resolve(Some(grass()), Some(dirt())), Ok(palette()));
    assert_eq!(
        Palette::resolve(None, Some(dirt())),
        Err(ConfigurationError::MissingPaletteEntry)
    );
    assert_eq!(
        Palette::resolve(Some(grass()), None),
        Err(ConfigurationError::MissingPaletteEntry)
    );
}

#[test]
fn heightmap_sample_is_none_outside_the_extent() {
    let hm = Heightmap(vec![vec![7, 8], vec![9, 10]]);
    assert_eq!(hm.sample(0, 0), Some(7));
    assert_eq!(hm.sample(1, 0), Some(8));
    assert_eq!(hm.sample(0, 1), Some(9));
    assert_eq!(hm.sample(2, 0), None);
    assert_eq!(hm.sample(0, 2), None);
}

#[test]
fn zero_height_field_builds_a_single_surface_brick() {
    // 4x4 height field of zeros over a depth-2 brick grid: only the brick
    // at the origin holds voxels, a grass sheet at global y = 0
    let hm = flat_heightmap(4, 0);
    let t = setup_voxels(&hm, 4, &palette());
    assert_eq!(t.depth, 2);
    let instances = t.extract_instances(false, false, origin());
    assert_eq!(instances.len(), 1);
    let inst = instances[0];
    assert_eq!((inst.x, inst.y, inst.z), (-2, -2, -2));
    assert_eq!(inst.scale, 1);
    let brick = &t.bricks[inst.brick];
    for x in 0..4u32 {
        for z in 0..4u32 {
            assert_eq!(brick.get(GridPos { x, y: 0, z }), Some(grass()));
            for y in 1..4u32 {
                assert_eq!(brick.get(GridPos { x, y, z }), None);
            }
        }
    }
}

#[test]
fn constant_height_field_builds_a_flat_surface() {
    // every sample 0: every covered column gets one grass voxel at the
    // bottom and nothing above it
    let hm = flat_heightmap(16, 0);
    let t = setup_voxels(&hm, 4, &palette());
    assert_eq!(t.depth, 2);
    let instances = t.extract_instances(false, false, origin());
    // the bottom layer of bricks over the covered columns: 4 x 4
    assert_eq!(instances.len(), 16);
    for inst in instances.iter() {
        assert_eq!(inst.y, -2);
        assert_eq!(inst.scale, 1);
        let brick = &t.bricks[inst.brick];
        for x in 0..4u32 {
            for z in 0..4u32 {
                assert_eq!(brick.get(GridPos { x, y: 0, z }), Some(grass()));
                for y in 1..4u32 {
                    assert_eq!(brick.get(GridPos { x, y, z }), None);
                }
            }
        }
    }
}

#[test]
fn tall_height_field_fills_covered_columns_with_dirt() {
    // sample 1 scales to a surface at y = 200, far above the world top, so
    // every covered voxel lies below the surface and gets the dirt color
    let hm = flat_heightmap(16, 1);
    let t = setup_voxels(&hm, 4, &palette());
    let instances = t.extract_instances(false, false, origin());
    assert_eq!(instances.len(), 64);
    for inst in instances.iter() {
        let brick = &t.bricks[inst.brick];
        for x in 0..4u32 {
            for y in 0..4u32 {
                for z in 0..4u32 {
                    assert_eq!(brick.get(GridPos { x, y, z }), Some(dirt()));
                }
            }
        }
    }
}

#[test]
fn columns_outside_the_height_field_stay_empty() {
    // a 4x4 field over a 16-voxel-wide world: bricks beyond the first
    // cover no sampled column and must not materialize
    let hm = flat_heightmap(4, 0);
    let t = setup_voxels(&hm, 4, &palette());
    let instances = t.extract_instances(false, false, origin());
    assert_eq!(instances.len(), 1);
    assert_eq!((instances[0].x, instances[0].y, instances[0].z), (-2, -2, -2));
}

#[test]
fn worlds_smaller_than_a_chunk_stay_empty() {
    // an 8-voxel world is below the 16-voxel chunk size, so the chunk
    // iteration covers nothing
    let hm = flat_heightmap(8, 0);
    let t = setup_voxels(&hm, 3, &palette());
    assert_eq!(t.depth, 1);
    let instances = t.extract_instances(false, false, origin());
    assert_eq!(instances.len(), 0);
}

#[test]
fn empty_height_field_builds_an_empty_world() {
    let hm = Heightmap(Vec::new());
    let t = setup_voxels(&hm, 4, &palette());
    let instances = t.extract_instances(false, false, origin());
    assert_eq!(instances.len(), 0);
}

#[test]
fn process_heightmap_keeps_every_nth_sample() {
    let grid = Heightmap(vec![
        vec![0, 1, 2, 3, 4],
        vec![10, 11, 12, 13, 14],
        vec![20, 21, 22, 23, 24],
    ]);
    let halved = process_heightmap(&grid, 2);
    assert_eq!(halved.0, vec![vec![0, 2, 4], vec![20, 22, 24]]);
    let full = process_heightmap(&grid, 1);
    assert_eq!(full.0, grid.0);
}
