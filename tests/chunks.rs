use jungle_sim::{detect_split_chunks, ChunkFate, Material, PixelWorld, WoodChunk, MIN_CHUNK_CELLS};

fn count(world: &PixelWorld, m: Material) -> usize {
    world.pixels.iter().filter(|p| **p == m).count()
}

fn ground(world: &mut PixelWorld) {
    world.set_rect(0, 550, 800, 50, Material::Dirt);
}

#[test]
fn floating_trunk_becomes_one_chunk() {
    let mut world = PixelWorld::new(800, 600);
    ground(&mut world);
    world.set_rect(100, 400, 15, 80, Material::Wood);
    let spawns = world.detect_floating_chunks();
    assert_eq!(spawns.len(), 1);
    let sp = &spawns[0];
    assert_eq!(sp.chunk.pixels.len(), 1200);
    assert!(sp.chunk.pixels.iter().all(|p| p.2 == Material::Wood));
    for y in 400..480 {
        for x in 100..115 {
            assert_eq!(world.get(x, y), Material::Air);
        }
    }
    assert_eq!(count(&world, Material::Wood), 0);
    // mean cell, rounded down
    assert_eq!((sp.center_x, sp.center_y), (107, 439));
    assert_eq!((sp.width, sp.height), (15, 80));
    // every member lands back on its grid cell
    let mut cells: Vec<(i32, i32)> =
        sp.chunk.pixels.iter().map(|p| (p.0 + sp.center_x, p.1 + sp.center_y)).collect();
    cells.sort();
    cells.dedup();
    assert_eq!(cells.len(), 1200);
    assert!(cells.iter().all(|c| (100..115).contains(&c.0) && (400..480).contains(&c.1)));
}

#[test]
fn grounded_trunk_stays() {
    let mut world = PixelWorld::new(800, 600);
    ground(&mut world);
    world.set_rect(100, 400, 15, 150, Material::Wood);
    let before = world.pixels.clone();
    let spawns = world.detect_floating_chunks();
    assert_eq!(spawns.len(), 0);
    assert_eq!(world.pixels, before);
    assert_eq!(count(&world, Material::Wood), 15 * 150);
}

#[test]
fn islands_are_told_apart() {
    let mut world = PixelWorld::new(60, 40);
    world.set_rect(0, 30, 60, 10, Material::Dirt);
    // touches the dirt
    world.set_rect(5, 20, 3, 10, Material::Wood);
    // hangs in the air
    world.set_rect(30, 5, 4, 3, Material::Wood);
    let held = world.grounded_mask();
    for y in 0..40i32 {
        for x in 0..60i32 {
            let i = (y * 60 + x) as usize;
            let expect = (5..8).contains(&x) && (20..30).contains(&y);
            assert_eq!(held[i], expect);
        }
    }
    let comps = world.floating_components();
    assert_eq!(comps.len(), 1);
    let mut cells = comps[0].clone();
    cells.sort();
    let mut want: Vec<(i64, i64)> = Vec::new();
    for y in 5..8 {
        for x in 30..34 {
            want.push((x, y));
        }
    }
    want.sort();
    assert_eq!(cells, want);
}

#[test]
fn grounding_goes_through_wood() {
    let mut world = PixelWorld::new(30, 30);
    world.set_rect(0, 25, 30, 5, Material::Dirt);
    // an L: a post on the dirt and an arm reaching out from its top
    world.set_rect(3, 10, 2, 15, Material::Wood);
    world.set_rect(5, 10, 10, 2, Material::Wood);
    assert_eq!(world.floating_components().len(), 0);
    assert_eq!(world.detect_floating_chunks().len(), 0);
}

#[test]
fn sand_also_holds_wood() {
    let mut world = PixelWorld::new(30, 30);
    world.set_rect(10, 20, 5, 1, Material::Sand);
    world.set_rect(11, 14, 2, 6, Material::Wood);
    assert_eq!(world.detect_floating_chunks().len(), 0);
}

#[test]
fn four_cells_stay_five_cells_go() {
    assert_eq!(MIN_CHUNK_CELLS, 5);
    let mut world = PixelWorld::new(40, 40);
    world.set_rect(2, 2, 4, 1, Material::Wood);
    world.set_rect(20, 20, 5, 1, Material::Wood);
    let spawns = world.detect_floating_chunks();
    assert_eq!(spawns.len(), 1);
    assert_eq!(spawns[0].chunk.pixels.len(), 5);
    assert_eq!(world.get(2, 2), Material::Wood);
    assert_eq!(world.get(5, 2), Material::Wood);
    assert_eq!(world.get(20, 20), Material::Air);
    assert_eq!(world.get(24, 20), Material::Air);
}

#[test]
fn diagonal_cells_are_not_connected() {
    let mut world = PixelWorld::new(20, 20);
    for i in 0..6 {
        world.set(2 + i, 2 + i, Material::Wood);
    }
    assert_eq!(world.floating_components().len(), 6);
    assert_eq!(world.detect_floating_chunks().len(), 0);
}

#[test]
fn tall_trunk_tips_toward_its_lean() {
    let mut world = PixelWorld::new(100, 100);
    // lower half at x 10..13, upper half shifted right to x 20..23
    world.set_rect(10, 50, 3, 30, Material::Wood);
    world.set_rect(12, 49, 11, 1, Material::Wood);
    world.set_rect(20, 19, 3, 30, Material::Wood);
    let spawns = world.detect_floating_chunks();
    assert_eq!(spawns.len(), 1);
    assert_eq!(spawns[0].tip, 1);
}

#[test]
fn balanced_trunk_tips_by_parity() {
    let mut world = PixelWorld::new(100, 100);
    world.set_rect(10, 10, 3, 30, Material::Wood);
    let spawns = world.detect_floating_chunks();
    assert_eq!(spawns.len(), 1);
    assert_eq!(spawns[0].center_x, 11);
    assert_eq!(spawns[0].tip, -1);
    let mut world = PixelWorld::new(100, 100);
    world.set_rect(11, 10, 3, 30, Material::Wood);
    let spawns = world.detect_floating_chunks();
    assert_eq!(spawns[0].center_x, 12);
    assert_eq!(spawns[0].tip, 1);
}

#[test]
fn squat_chunk_does_not_tip() {
    let mut world = PixelWorld::new(100, 100);
    world.set_rect(10, 10, 20, 5, Material::Wood);
    let spawns = world.detect_floating_chunks();
    assert_eq!(spawns[0].tip, 0);
}

fn bar(x0: i32, x1: i32, y: i32) -> Vec<(i32, i32, Material)> {
    (x0..x1).map(|x| (x, y, Material::Wood)).collect()
}

#[test]
fn cut_chunk_splits_in_two() {
    let mut pixels = bar(-5, -1, 0);
    pixels.extend(bar(2, 6, 0));
    pixels.push((3, 1, Material::Leaf));
    let chunk = WoodChunk { pixels: pixels.clone() };
    match chunk.fate() {
        ChunkFate::Split(pieces) => {
            assert_eq!(pieces.len(), 2);
            let mut placed: Vec<(i32, i32, Material)> = Vec::new();
            for pc in &pieces {
                let n = pc.chunk.pixels.len() as i32;
                let sx: i32 = pc.chunk.pixels.iter().map(|p| p.0).sum();
                let sy: i32 = pc.chunk.pixels.iter().map(|p| p.1).sum();
                // each piece is centred on its own centre of mass
                assert!(0 <= sx && sx < n);
                assert!(0 <= sy && sy < n);
                for p in &pc.chunk.pixels {
                    placed.push((p.0 + pc.offset_x, p.1 + pc.offset_y, p.2));
                }
            }
            let mut want = pixels.clone();
            want.sort_by_key(|p| (p.0, p.1));
            placed.sort_by_key(|p| (p.0, p.1));
            assert_eq!(placed, want);
            let offsets: Vec<(i32, i32)> = pieces.iter().map(|p| (p.offset_x, p.offset_y)).collect();
            assert!(offsets.contains(&(-4, 0)));
            assert!(offsets.contains(&(3, 0)));
        }
        _ => panic!("expected a split"),
    }
}

#[test]
fn whole_chunk_stays_intact() {
    let chunk = WoodChunk { pixels: bar(0, 7, 3) };
    assert!(matches!(chunk.fate(), ChunkFate::Intact));
    let pieces = chunk.pieces();
    assert_eq!(pieces.len(), 1);
    assert_eq!((pieces[0].offset_x, pieces[0].offset_y), (3, 3));
}

#[test]
fn empty_chunk_is_removed() {
    let chunk = WoodChunk { pixels: Vec::new() };
    assert!(matches!(chunk.fate(), ChunkFate::Removed));
    assert_eq!(chunk.bounding_size(), None);
}

#[test]
fn cutting_removes_marked_cells() {
    let mut chunk = WoodChunk { pixels: bar(0, 6, 0) };
    let reach = vec![false, true, true, true, false, false];
    let hits = vec![true, true, false, true, true, true];
    let removed = chunk.cut(&reach, &hits);
    assert_eq!(removed, vec![(1, 0, Material::Wood), (3, 0, Material::Wood)]);
    assert_eq!(
        chunk.pixels,
        vec![(0, 0, Material::Wood), (2, 0, Material::Wood), (4, 0, Material::Wood), (5, 0, Material::Wood)]
    );
    assert!(matches!(chunk.fate(), ChunkFate::Split(_)));
}

#[test]
fn collider_follows_the_cells() {
    let mut chunk = WoodChunk { pixels: bar(-2, 3, 0) };
    chunk.pixels.push((0, 4, Material::Wood));
    assert_eq!(chunk.bounding_size(), Some((5, 5)));
    let reach = vec![false, false, false, false, false, true];
    let hits = vec![true; 6];
    chunk.cut(&reach, &hits);
    assert_eq!(chunk.bounding_size(), Some((5, 1)));
}

#[test]
fn lifecycle_pass_decides_each_chunk() {
    let mut apart = bar(0, 3, 0);
    apart.extend(bar(5, 8, 0));
    let chunks = vec![
        WoodChunk { pixels: Vec::new() },
        WoodChunk { pixels: bar(0, 4, 1) },
        WoodChunk { pixels: apart },
    ];
    let fates = detect_split_chunks(&chunks);
    assert_eq!(fates.len(), 3);
    assert!(matches!(fates[0], ChunkFate::Removed));
    assert!(matches!(fates[1], ChunkFate::Intact));
    match &fates[2] {
        ChunkFate::Split(pieces) => {
            assert_eq!(pieces.len(), 2);
            assert!(pieces.iter().all(|p| p.chunk.pixels.len() == 3));
        }
        _ => panic!("expected a split"),
    }
}

#[test]
fn promoting_no_cells_makes_no_body() {
    let mut world = PixelWorld::new(10, 10);
    world.set_rect(2, 2, 3, 3, Material::Wood);
    let before = world.pixels.clone();
    assert!(world.promote(&Vec::new()).is_none());
    assert_eq!(world.pixels, before);
    let sp = world.promote(&vec![(2, 2), (3, 2)]).unwrap();
    assert_eq!(sp.chunk.pixels, vec![(0, 0, Material::Wood), (1, 0, Material::Wood)]);
    assert_eq!(world.get(2, 2), Material::Air);
    assert_eq!(world.get(4, 2), Material::Wood);
}
