use jungle_sim::random::{chance_flags, coin_flips};
use jungle_sim::{update_pixels, Material, PixelWorld, RateLimiter};

fn count(world: &PixelWorld, m: Material) -> usize {
    world.pixels.iter().filter(|p| **p == m).count()
}

fn coins(world: &PixelWorld, value: bool) -> Vec<bool> {
    vec![value; world.width() * world.height()]
}

#[test]
fn lone_sand_falls_straight_down() {
    let mut world = PixelWorld::new(9, 9);
    world.set(4, 2, Material::Sand);
    let c = coins(&world, true);
    world.update_sand_with(&c);
    assert_eq!(world.get(4, 2), Material::Air);
    assert_eq!(world.get(4, 3), Material::Sand);
    assert_eq!(count(&world, Material::Sand), 1);
}

#[test]
fn sand_does_not_sink_through_dirt() {
    let mut world = PixelWorld::new(9, 9);
    world.set(4, 2, Material::Sand);
    world.set_rect(3, 3, 3, 1, Material::Dirt);
    let c = coins(&world, false);
    world.update_sand_with(&c);
    assert_eq!(world.get(4, 2), Material::Sand);
    assert_eq!(world.get(4, 3), Material::Dirt);
}

#[test]
fn sand_sinks_through_leaves() {
    let mut world = PixelWorld::new(9, 9);
    world.set(4, 2, Material::Sand);
    world.set(4, 3, Material::Leaf);
    let c = coins(&world, true);
    world.update_sand_with(&c);
    assert_eq!(world.get(4, 2), Material::Leaf);
    assert_eq!(world.get(4, 3), Material::Sand);
}

#[test]
fn blocked_sand_slides_by_its_coin() {
    let mut world = PixelWorld::new(9, 9);
    world.set(4, 2, Material::Sand);
    world.set(4, 3, Material::Dirt);
    let left = coins(&world, true);
    world.update_sand_with(&left);
    assert_eq!(world.get(3, 3), Material::Sand);
    assert_eq!(world.get(4, 2), Material::Air);

    let mut world = PixelWorld::new(9, 9);
    world.set(4, 2, Material::Sand);
    world.set(4, 3, Material::Dirt);
    let right = coins(&world, false);
    world.update_sand_with(&right);
    assert_eq!(world.get(5, 3), Material::Sand);
}

#[test]
fn sand_on_the_bottom_row_rests() {
    let mut world = PixelWorld::new(5, 4);
    world.set(2, 3, Material::Sand);
    let c = coins(&world, true);
    world.update_sand_with(&c);
    assert_eq!(world.get(2, 3), Material::Sand);
}

#[test]
fn sand_column_piles_without_loss() {
    let mut world = PixelWorld::new(30, 20);
    world.set_rect(0, 15, 30, 5, Material::Dirt);
    world.set_rect(14, 2, 2, 8, Material::Sand);
    let sand = count(&world, Material::Sand);
    let dirt = count(&world, Material::Dirt);
    for _ in 0..12 {
        world.update_sand();
        assert_eq!(count(&world, Material::Sand), sand);
        assert_eq!(count(&world, Material::Dirt), dirt);
    }
}

#[test]
fn solids_never_move() {
    let mut world = PixelWorld::new(12, 12);
    world.set_rect(2, 2, 3, 3, Material::Wood);
    world.set(8, 1, Material::Dirt);
    world.set(9, 1, Material::Leaf);
    world.set(10, 1, Material::Fiber);
    let before = world.pixels.clone();
    world.update_sand();
    assert_eq!(world.pixels, before);
}

#[test]
fn sand_moves_every_other_frame() {
    let mut world = PixelWorld::new(9, 9);
    world.set(4, 0, Material::Sand);
    let mut pace = RateLimiter::new(2);
    assert!(!update_pixels(&mut world, &mut pace));
    assert_eq!(world.get(4, 0), Material::Sand);
    assert!(update_pixels(&mut world, &mut pace));
    assert_eq!(world.get(4, 1), Material::Sand);
    assert!(!update_pixels(&mut world, &mut pace));
    assert_eq!(world.get(4, 1), Material::Sand);
    assert!(update_pixels(&mut world, &mut pace));
    assert_eq!(world.get(4, 2), Material::Sand);
}

#[test]
fn chance_flags_at_the_extremes() {
    assert_eq!(chance_flags(7, 0), vec![false; 7]);
    assert_eq!(chance_flags(7, 100), vec![true; 7]);
    assert_eq!(chance_flags(7, 250), vec![true; 7]);
    assert_eq!(chance_flags(0, 50).len(), 0);
    assert_eq!(coin_flips(11).len(), 11);
}

#[test]
fn sand_at_the_edge_is_never_lost() {
    for coin in [true, false] {
        let mut world = PixelWorld::new(1, 2);
        world.set(0, 0, Material::Sand);
        world.set(0, 1, Material::Dirt);
        let c = coins(&world, coin);
        world.update_sand_with(&c);
        assert_eq!(world.get(0, 0), Material::Sand);
        assert_eq!(world.get(0, 1), Material::Dirt);
    }
    let mut world = PixelWorld::new(5, 3);
    world.set_rect(0, 2, 5, 1, Material::Dirt);
    world.set(0, 1, Material::Sand);
    world.set(4, 1, Material::Sand);
    // the left grain's coin points left and the right grain's points right
    let mut c = coins(&world, false);
    c[5] = true;
    world.update_sand_with(&c);
    assert_eq!(world.get(0, 1), Material::Sand);
    assert_eq!(world.get(4, 1), Material::Sand);
    assert_eq!(count(&world, Material::Sand), 2);
    for _ in 0..20 {
        world.update_sand();
        assert_eq!(count(&world, Material::Sand), 2);
    }
}

#[test]
fn grain_over_air_falls_straight_among_others() {
    for coin in [true, false] {
        let mut world = PixelWorld::new(8, 8);
        world.set_rect(0, 6, 8, 2, Material::Dirt);
        world.set(3, 3, Material::Sand);
        // a neighbour on the right, resting on dirt, and grains far away
        world.set(4, 3, Material::Sand);
        world.set(4, 4, Material::Dirt);
        world.set(7, 5, Material::Sand);
        world.set(0, 0, Material::Sand);
        let c = coins(&world, coin);
        world.update_sand_with(&c);
        assert_eq!(world.get(3, 3), Material::Air);
        assert_eq!(world.get(3, 4), Material::Sand);
        assert_eq!(count(&world, Material::Sand), 4);
    }
}
