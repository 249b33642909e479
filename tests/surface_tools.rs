use jungle_sim::{
    surface_spans, BreakRule, Material, PixelWorld, RateLimiter, Tool, WorldService,
    WORLD_PIXEL_HEIGHT, WORLD_PIXEL_WIDTH,
};

#[test]
fn surface_is_the_topmost_ground() {
    let mut world = PixelWorld::new(10, 10);
    world.set_rect(0, 6, 10, 4, Material::Dirt);
    world.set_rect(3, 4, 2, 2, Material::Sand);
    world.set(7, 2, Material::Wood);
    world.set_rect(9, 0, 1, 10, Material::Air);
    let hs = world.surface_heights(1);
    assert_eq!(
        hs,
        vec![Some(6), Some(6), Some(6), Some(4), Some(4), Some(6), Some(6), Some(6), Some(6), None]
    );
    let every_third = world.surface_heights(3);
    assert_eq!(every_third, vec![Some(6), Some(4), Some(6), None]);
}

#[test]
fn spans_are_flat_runs() {
    let hs = vec![Some(6), Some(6), Some(6), Some(4), Some(4), Some(5), None, None, Some(6), Some(6)];
    let spans = surface_spans(&hs, 2);
    let got: Vec<(usize, usize, i32)> = spans.iter().map(|s| (s.start, s.end, s.row)).collect();
    assert_eq!(got, vec![(0, 3, 6), (3, 5, 4), (8, 10, 6)]);
    let one = surface_spans(&hs, 1);
    assert_eq!(one.len(), 4);
    assert_eq!((one[2].start, one[2].end, one[2].row), (5, 6, 5));
    assert_eq!(surface_spans(&Vec::new(), 2).len(), 0);
}

#[test]
fn tools_break_their_materials() {
    assert!(Tool::Axe.can_break(&Material::Wood));
    assert!(!Tool::Axe.can_break(&Material::Dirt));
    assert!(Tool::Shovel.can_break(&Material::Dirt));
    assert!(Tool::Shovel.can_break(&Material::Sand));
    assert!(!Tool::Shovel.can_break(&Material::Leaf));
    assert!(!Tool::Hand.can_break(&Material::Wood));
    assert_eq!(Tool::Hand.next(), Tool::Axe);
    assert_eq!(Tool::Axe.next(), Tool::Shovel);
    assert_eq!(Tool::Shovel.next(), Tool::Hand);
    assert_eq!(Tool::Hand.name(), "Hand");
    assert_eq!(Tool::Axe.name(), "Axe");
    assert_eq!(Tool::Shovel.name(), "Shovel");
    assert!(Tool::Axe.cuts_chunks());
    assert!(!Tool::Shovel.cuts_chunks());
}

#[test]
fn breaking_follows_rule_and_hits() {
    let mut world = PixelWorld::new(20, 20);
    world.set_rect(0, 0, 20, 20, Material::Dirt);
    world.set(10, 10, Material::Wood);
    world.set(11, 10, Material::Wood);
    // radius 1: a 3 by 3 square of flags, row-major; miss the cell right of centre
    let hits = vec![true, true, true, true, true, false, true, true, true];
    let removed = world.break_in_circle(10, 10, 1, BreakRule::With(Tool::Axe), &hits);
    assert_eq!(removed, vec![(10, 10, Material::Wood)]);
    assert_eq!(world.get(10, 10), Material::Air);
    assert_eq!(world.get(11, 10), Material::Wood);
    let removed = world.break_in_circle(10, 10, 1, BreakRule::With(Tool::Shovel), &hits);
    assert_eq!(removed.len(), 3);
    assert_eq!(world.get(10, 9), Material::Air);
    assert_eq!(world.get(11, 11), Material::Dirt);
}

#[test]
fn digging_clears_every_solid() {
    let mut world = PixelWorld::new(30, 30);
    world.set_rect(0, 0, 30, 30, Material::Leaf);
    world.set(15, 15, Material::Wood);
    let removed = world.dig_at_position(15, 15, 5);
    assert_eq!(removed.len(), 81);
    assert_eq!(world.get(15, 15), Material::Air);
    assert_eq!(world.get(20, 15), Material::Air);
    assert_eq!(world.get(19, 19), Material::Leaf);
    assert!(removed.contains(&(15, 15, Material::Wood)));
}

#[test]
fn tool_use_only_takes_what_it_may() {
    let mut world = PixelWorld::new(20, 20);
    world.set_rect(0, 0, 20, 20, Material::Leaf);
    let removed = world.use_tool_at_position(Tool::Shovel, 10, 10, 3);
    assert!(removed.is_empty());
    world.set_rect(0, 0, 20, 20, Material::Sand);
    let removed = world.use_tool_at_position(Tool::Shovel, 10, 10, 3);
    assert!(removed.len() <= 29);
    for (x, y, m) in removed {
        assert_eq!(m, Material::Sand);
        assert_eq!(world.get(x, y), Material::Air);
        assert!((x - 10) * (x - 10) + (y - 10) * (y - 10) <= 9);
    }
}

#[test]
fn coordinates_round_trip() {
    for py in 0..WORLD_PIXEL_HEIGHT as i32 {
        for px in 0..WORLD_PIXEL_WIDTH as i32 {
            let (wx, wy) = WorldService::pixel_to_world(px, py);
            assert_eq!(WorldService::world_to_pixel(wx, wy), (px as i64, py as i64));
        }
    }
    assert_eq!(WorldService::pixel_to_world(0, 0), (-400, 300));
    assert_eq!(WorldService::pixel_to_world(400, 300), (0, 0));
    assert_eq!(WorldService::world_to_pixel(-400, -299), (0, 599));
}

#[test]
fn world_positions_address_the_grid() {
    let mut world = PixelWorld::new(800, 600);
    assert!(WorldService::is_in_bounds(0, 0));
    assert!(!WorldService::is_in_bounds(400, 0));
    assert!(!WorldService::is_in_bounds(0, 301));
    WorldService::set_material_at_world(&mut world, 10, 20, Material::Dirt);
    assert_eq!(world.get(410, 280), Material::Dirt);
    assert_eq!(WorldService::get_material_at_world(&world, 10, 20), Material::Dirt);
    assert!(WorldService::has_collision_at(&world, 10, 20));
    assert!(!WorldService::has_collision_at(&world, 11, 20));
    WorldService::set_circle_at_world(&mut world, 0, 0, 3, Material::Sand);
    assert_eq!(world.get(403, 300), Material::Sand);
    let broken = WorldService::break_blocks_in_radius(&mut world, 0, 0, 3);
    assert_eq!(broken.len(), 29);
    assert!(broken.contains(&(Material::Sand, 3, 0)));
    assert_eq!(world.get(403, 300), Material::Air);
}

#[test]
fn rate_limiter_accumulates() {
    let mut timer = RateLimiter::new(500);
    assert!(!timer.advance(200));
    assert!(!timer.advance(200));
    assert!(timer.advance(200));
    assert_eq!(timer.elapsed, 100);
    assert!(!timer.advance(0));
    assert!(timer.advance(2000));
    assert_eq!(timer.elapsed, 0);
}

#[test]
fn rect_query_lists_solid_cells_in_order() {
    let mut world = PixelWorld::new(10, 10);
    world.set(2, 3, Material::Wood);
    world.set(1, 4, Material::Sand);
    world.set(4, 3, Material::Dirt);
    world.set(9, 9, Material::Leaf);
    let cells = WorldService::get_pixels_in_rect(&world, -5, 3, 4, 4);
    assert_eq!(cells, vec![(2, 3, Material::Wood), (4, 3, Material::Dirt), (1, 4, Material::Sand)]);
    assert!(WorldService::get_pixels_in_rect(&world, 5, 5, 4, 4).is_empty());
    assert_eq!(WorldService::get_pixels_in_rect(&world, 0, 0, i32::MAX, i32::MAX).len(), 4);
}

#[test]
fn removing_listed_cells_takes_each_once() {
    let mut world = PixelWorld::new(10, 10);
    world.set(2, 3, Material::Wood);
    world.set(4, 3, Material::Dirt);
    let taken = WorldService::remove_pixels(&mut world, &vec![(2, 3), (5, 5), (2, 3), (4, 3), (-1, 0)]);
    assert_eq!(taken, vec![Material::Wood, Material::Dirt]);
    assert_eq!(world.get(2, 3), Material::Air);
    assert_eq!(world.get(4, 3), Material::Air);
}

#[test]
fn hit_flags_cover_the_clipped_square() {
    let world = PixelWorld::new(20, 10);
    assert_eq!(world.hit_box_size(10, 5, 1), 9);
    // clipped at the left and top edges: columns 0..=2, rows 0..=2
    assert_eq!(world.hit_box_size(0, 0, 2), 9);
    // a radius far beyond the grid covers the whole grid
    assert_eq!(world.hit_box_size(3, 3, 1_000_000), 200);
    assert_eq!(world.hit_box_size(3, 3, -1), 0);
}

#[test]
fn breaking_at_an_edge_uses_the_clipped_flags() {
    let mut world = PixelWorld::new(5, 5);
    world.set_rect(0, 0, 5, 5, Material::Dirt);
    // square of radius 1 around (0, 0) clipped to columns 0..=1, rows 0..=1
    let hits = vec![true, false, true, true];
    let removed = world.break_in_circle(0, 0, 1, BreakRule::AnySolid, &hits);
    assert_eq!(removed, vec![(0, 0, Material::Dirt), (0, 1, Material::Dirt)]);
    assert_eq!(world.get(1, 0), Material::Dirt);
    assert_eq!(world.get(1, 1), Material::Dirt);
}

#[test]
fn huge_dig_clears_every_solid_cell() {
    let mut world = PixelWorld::new(30, 20);
    world.set_rect(0, 10, 30, 10, Material::Dirt);
    let removed = world.dig_at_position(15, 15, 100_000);
    assert_eq!(removed.len(), 300);
    assert!(world.pixels.iter().all(|m| *m == Material::Air));
    assert!(world.dig_at_position(15, 15, -3).is_empty());
}

#[test]
fn broken_blocks_come_row_by_row_once_each() {
    let mut world = PixelWorld::new(800, 600);
    world.set_rect(398, 298, 5, 5, Material::Wood);
    let broken = WorldService::break_blocks_in_radius(&mut world, 0, 0, 2);
    assert_eq!(broken.len(), 13);
    let pixels: Vec<(i64, i64)> =
        broken.iter().map(|b| WorldService::world_to_pixel(b.1, b.2)).map(|(x, y)| (y, x)).collect();
    let mut sorted = pixels.clone();
    sorted.sort();
    sorted.dedup();
    assert_eq!(pixels, sorted);
    assert_eq!(broken[0], (Material::Wood, 0, 2));
}
