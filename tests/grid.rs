use jungle_sim::{Material, PixelWorld, DIRTY_CHUNK_SIZE};

fn count(world: &PixelWorld, m: Material) -> usize {
    world.pixels.iter().filter(|p| **p == m).count()
}

#[test]
fn outside_reads_air() {
    let mut world = PixelWorld::new(10, 8);
    world.set_rect(0, 0, 10, 8, Material::Dirt);
    assert_eq!(world.get(-1, 0), Material::Air);
    assert_eq!(world.get(0, -1), Material::Air);
    assert_eq!(world.get(10, 0), Material::Air);
    assert_eq!(world.get(0, 8), Material::Air);
    assert_eq!(world.get(i32::MIN, i32::MAX), Material::Air);
    assert_eq!(world.get(9, 7), Material::Dirt);
}

#[test]
fn outside_write_is_ignored() {
    let mut world = PixelWorld::new(10, 8);
    world.set(3, 3, Material::Sand);
    world.clear_dirty();
    let before = world.pixels.clone();
    world.set(-1, 3, Material::Wood);
    world.set(10, 3, Material::Wood);
    world.set(3, 8, Material::Wood);
    world.set(3, -5, Material::Wood);
    assert_eq!(world.pixels, before);
    assert!(!world.is_changed());
}

#[test]
fn new_world_is_air_and_dirty() {
    let world = PixelWorld::new(40, 33);
    assert_eq!(world.width(), 40);
    assert_eq!(world.height(), 33);
    assert_eq!(count(&world, Material::Air), 40 * 33);
    assert!(world.is_changed());
    // 40 and 33 cells need two regions each way
    assert!(world.is_chunk_dirty(1, 1));
    assert!(!world.is_chunk_dirty(2, 0));
}

#[test]
fn set_marks_only_its_region() {
    let mut world = PixelWorld::new(100, 70);
    world.clear_dirty();
    assert!(!world.is_changed());
    world.set(99, 69, Material::Dirt);
    assert!(world.is_changed());
    let s = DIRTY_CHUNK_SIZE;
    assert!(world.is_chunk_dirty(99 / s, 69 / s));
    assert!(!world.is_chunk_dirty(0, 0));
    assert!(!world.is_chunk_dirty(99 / s, 0));
}

#[test]
fn rect_is_clipped_to_the_grid() {
    let mut world = PixelWorld::new(10, 10);
    world.set_rect(-2, 8, 5, 5, Material::Wood);
    assert_eq!(count(&world, Material::Wood), 3 * 2);
    assert_eq!(world.get(0, 8), Material::Wood);
    assert_eq!(world.get(2, 9), Material::Wood);
    assert_eq!(world.get(3, 9), Material::Air);
}

#[test]
fn rect_with_no_area_writes_nothing() {
    let mut world = PixelWorld::new(10, 10);
    world.set_rect(2, 2, 0, 5, Material::Wood);
    world.set_rect(2, 2, -3, 5, Material::Wood);
    assert_eq!(count(&world, Material::Wood), 0);
}

#[test]
fn circle_boundary_is_inclusive() {
    let mut world = PixelWorld::new(20, 20);
    world.set_circle(10, 10, 2, Material::Sand);
    assert_eq!(world.get(12, 10), Material::Sand);
    assert_eq!(world.get(10, 8), Material::Sand);
    assert_eq!(world.get(11, 11), Material::Sand);
    assert_eq!(world.get(12, 11), Material::Air);
    // 13 cells lie within distance 2
    assert_eq!(count(&world, Material::Sand), 13);
}

#[test]
fn circle_with_negative_radius_writes_nothing() {
    let mut world = PixelWorld::new(20, 20);
    world.set_circle(10, 10, -1, Material::Sand);
    assert_eq!(count(&world, Material::Sand), 0);
    world.set_circle(10, 10, 0, Material::Sand);
    assert_eq!(count(&world, Material::Sand), 1);
}

#[test]
fn material_table() {
    assert!(!Material::Air.is_solid());
    assert!(Material::Leaf.is_solid());
    assert_eq!(Material::Air.density(), 0);
    assert_eq!(Material::Leaf.density(), 1);
    assert_eq!(Material::Sand.density(), 2);
    assert_eq!(Material::Fiber.density(), 2);
    assert_eq!(Material::Dirt.density(), 3);
    assert_eq!(Material::Wood.density(), 5);
    assert!(Material::Sand.is_granular());
    assert!(!Material::Dirt.is_granular());
    assert!(Material::Dirt.is_ground() && Material::Sand.is_ground());
    assert!(!Material::Wood.is_ground());
}
