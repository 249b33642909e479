use jungle_sim::{Material, PixelWorld};

fn floor_world() -> PixelWorld {
    let mut world = PixelWorld::new(60, 60);
    world.set_rect(0, 50, 60, 10, Material::Dirt);
    world
}

#[test]
fn walker_stands_on_dirt_only() {
    let mut world = floor_world();
    // an 8 by 16 walker centred on row 41 has its feet row at 41 + 8 + 1 = 50
    assert!(world.on_ground(20, 41, 8, 16));
    assert!(!world.on_ground(20, 40, 8, 16));
    world.set_rect(10, 45, 20, 1, Material::Wood);
    assert!(!world.on_ground(20, 36, 8, 16));
}

#[test]
fn walls_beside_the_walker() {
    let mut world = floor_world();
    assert!(world.wall_free(20, 41, 8, 16));
    // a dirt column just right of the walker: 20 + 4 + 1 = 25
    world.set_rect(25, 30, 1, 20, Material::Dirt);
    assert!(!world.wall_free(20, 41, 8, 16));
    assert!(world.wall_free(19, 41, 8, 16));
    world.set_rect(25, 30, 1, 20, Material::Sand);
    assert!(world.wall_free(20, 41, 8, 16));
}

#[test]
fn roof_over_the_walker() {
    let mut world = floor_world();
    assert!(!world.under_roof(20, 41, 8, 16));
    // head row is 41 - 8 - 1 = 32
    world.set(17, 32, Material::Dirt);
    assert!(world.under_roof(20, 41, 8, 16));
    assert!(!world.under_roof(30, 41, 8, 16));
}

#[test]
fn walker_climbs_the_lowest_free_step() {
    let mut world = floor_world();
    // a three-cell step to the right: two cells up, the walker clears it
    world.set_rect(25, 47, 10, 3, Material::Dirt);
    assert!(!world.wall_free(20, 41, 8, 16));
    assert_eq!(world.climb_height(20, 41, 8, 16), Some(2));
    // a wall too high to climb
    world.set_rect(25, 20, 10, 30, Material::Dirt);
    assert_eq!(world.climb_height(20, 41, 8, 16), None);
}
