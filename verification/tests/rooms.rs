use bsp_dungeon::quad::{BspStats, Quad};
use bsp_dungeon::room::Room;

const ALMOST_ONE: u64 = 0x3FEF_FFFF_FFFF_FFFF;

fn quad(x: u32, y: u32, w: u32, h: u32) -> Quad {
    Quad { origin: (x, y), dims: (w, h) }
}

#[test]
fn room_keeps_its_fields() {
    let room = Room::new((3, 4), 5, 6);
    assert_eq!(room.origin, (3, 4));
    assert_eq!(room.height, 5);
    assert_eq!(room.width, 6);
}

#[test]
fn place_room_by_four_halves() {
    let stats = BspStats::new(9, 31, 128, 128, 8);
    let half = 0.5f64.to_bits();
    let room = quad(32, 64, 32, 32).place_room(&stats, half, half, half, half);
    // 9 + 23 / 2 = 20 both ways, then half of the 12 cells left over.
    assert_eq!(room, Room { origin: (38, 70), height: 20, width: 20 });
}

#[test]
fn place_room_pairs_each_extent_with_its_axis() {
    let stats = BspStats::new(4, 31, 128, 128, 8);
    let region = quad(10, 100, 40, 8);
    let room = region.place_room(
        &stats,
        0.75f64.to_bits(),
        0.5f64.to_bits(),
        0.25f64.to_bits(),
        0.5f64.to_bits(),
    );
    // height from 4 to 8: 4 + 3; width from 4 to 40: 4 + 18;
    // 18 cells are free to the right, 1 below.
    assert_eq!(room, Room { origin: (14, 100), height: 7, width: 22 });
}

#[test]
fn place_room_by_zero_draws_is_the_least_room_at_the_corner() {
    let stats = BspStats::new(9, 31, 128, 128, 8);
    let room = quad(96, 32, 32, 32).place_room(&stats, 0, 0, 0, 0);
    assert_eq!(room, Room { origin: (96, 32), height: 9, width: 9 });
}

#[test]
fn place_room_by_the_highest_draws() {
    let stats = BspStats::new(9, 31, 128, 128, 8);
    let room = quad(96, 32, 32, 32).place_room(&stats, ALMOST_ONE, ALMOST_ONE, ALMOST_ONE, ALMOST_ONE);
    // 31 by 31 leaves one cell free each way, and a pick stays below the end.
    assert_eq!(room, Room { origin: (96, 32), height: 31, width: 31 });
}

#[test]
fn place_room_in_a_region_of_the_least_size_fills_it() {
    let stats = BspStats::new(9, 31, 128, 128, 8);
    let room = quad(5, 6, 9, 9).place_room(&stats, ALMOST_ONE, 0, ALMOST_ONE, 0);
    assert_eq!(room, Room { origin: (5, 6), height: 9, width: 9 });
}

#[test]
fn place_room_in_a_region_below_the_least_size_has_no_extent() {
    let stats = BspStats::new(9, 31, 128, 128, 8);
    let half = 0.5f64.to_bits();
    let room = quad(20, 30, 5, 8).place_room(&stats, half, half, half, half);
    assert_eq!(room, Room { origin: (22, 34), height: 0, width: 0 });
}

#[test]
fn place_room_at_the_far_corner_of_the_number_range() {
    let stats = BspStats::new(1, 4, 128, 128, 8);
    let region = quad(u32::MAX - 4, u32::MAX - 4, 4, 4);
    let room = region.place_room(&stats, 0, 0, ALMOST_ONE, ALMOST_ONE);
    assert_eq!(room, Room { origin: (u32::MAX - 2, u32::MAX - 2), height: 1, width: 1 });
}

#[test]
fn placed_rooms_stay_inside_their_region() {
    let stats = BspStats::new(9, 31, 128, 128, 8);
    let region = quad(64, 32, 32, 32);
    let mut seed: u64 = 0x1234_5678_9ABC_DEF0;
    for _ in 0..2000 {
        let mut draws = [0u64; 4];
        for d in draws.iter_mut() {
            seed = seed.wrapping_mul(6364136223846793005).wrapping_add(1442695040888963407);
            *d = ((seed >> 11) as f64 / (1u64 << 53) as f64).to_bits();
        }
        let room = region.place_room(&stats, draws[0], draws[1], draws[2], draws[3]);
        assert!(9 <= room.width && room.width <= 31);
        assert!(9 <= room.height && room.height <= 31);
        assert!(region.origin.0 <= room.origin.0);
        assert!(region.origin.1 <= room.origin.1);
        assert!(room.origin.0 + room.width <= region.origin.0 + region.dims.0);
        assert!(room.origin.1 + room.height <= region.origin.1 + region.dims.1);
    }
}

#[test]
fn room_in_a_wide_region_may_exceed_the_largest_room_size() {
    let stats = BspStats::new(9, 31, 100, 100, 8);
    let region = stats.map_quads()[0];
    assert_eq!(region, quad(0, 0, 50, 50));
    let room = region.place_room(&stats, ALMOST_ONE, ALMOST_ONE, 0, 0);
    assert_eq!(room, Room { origin: (0, 0), height: 49, width: 49 });
}
