use bsp_dungeon::quad::{BspStats, Quad};

fn quad(x: u32, y: u32, w: u32, h: u32) -> Quad {
    Quad { origin: (x, y), dims: (w, h) }
}

fn share_no_cell(a: &Quad, b: &Quad) -> bool {
    a.origin.0 + a.dims.0 <= b.origin.0 || b.origin.0 + b.dims.0 <= a.origin.0
        || a.origin.1 + a.dims.1 <= b.origin.1 || b.origin.1 + b.dims.1 <= a.origin.1
}

#[test]
fn stats_keep_their_fields() {
    let stats = BspStats::new(9, 31, 100, 200, 8);
    assert_eq!(stats.minSize, 9);
    assert_eq!(stats.maxSize, 31);
    assert_eq!(stats.mapH, 100);
    assert_eq!(stats.mapW, 200);
    assert_eq!(stats.num_rooms, 8);
}

#[test]
fn split_gives_the_four_quarters_in_order() {
    let stats = BspStats::new(9, 20, 128, 128, 8);
    let parts = quad(10, 20, 64, 40).split(&stats);
    assert_eq!(
        parts,
        vec![quad(10, 20, 32, 20), quad(42, 20, 32, 20), quad(10, 40, 32, 20), quad(42, 40, 32, 20)]
    );
}

#[test]
fn split_rounds_odd_extents_down() {
    let stats = BspStats::new(9, 20, 128, 128, 8);
    let parts = quad(0, 0, 65, 41).split(&stats);
    assert_eq!(
        parts,
        vec![quad(0, 0, 32, 20), quad(32, 0, 32, 20), quad(0, 20, 32, 20), quad(32, 20, 32, 20)]
    );
}

#[test]
fn split_stops_when_a_half_falls_below_the_largest_room() {
    let stats = BspStats::new(9, 20, 128, 128, 8);
    assert_eq!(quad(0, 0, 64, 39).split(&stats), vec![]);
    assert_eq!(quad(0, 0, 39, 64).split(&stats), vec![]);
    assert_eq!(quad(0, 0, 39, 39).split(&stats), vec![]);
    assert_eq!(quad(0, 0, 40, 40).split(&stats).len(), 4);
}

#[test]
fn split_leaves_the_region_as_it_was() {
    let stats = BspStats::new(9, 20, 128, 128, 8);
    let region = quad(3, 4, 100, 90);
    let _ = region.split(&stats);
    assert_eq!(region, quad(3, 4, 100, 90));
}

#[test]
fn split_all_keeps_the_order_of_the_regions() {
    let stats = BspStats::new(9, 11, 128, 128, 8);
    let level = vec![quad(0, 0, 40, 40), quad(40, 0, 40, 40)];
    let next = stats.split_all(&level);
    assert_eq!(
        next,
        vec![
            quad(0, 0, 20, 20),
            quad(20, 0, 20, 20),
            quad(0, 20, 20, 20),
            quad(20, 20, 20, 20),
            quad(40, 0, 20, 20),
            quad(60, 0, 20, 20),
            quad(40, 20, 20, 20),
            quad(60, 20, 20, 20),
        ]
    );
    assert_eq!(stats.split_all(&next), vec![]);
    assert_eq!(stats.split_all(&Vec::new()), vec![]);
}

#[test]
fn preset_world_has_sixteen_regions() {
    let stats = BspStats::new(9, 31, 128, 128, 8);
    let quads = stats.map_quads();
    let mut expected = Vec::new();
    for parent in 0..4u32 {
        for child in 0..4u32 {
            let x = (parent % 2) * 64 + (child % 2) * 32;
            let y = (parent / 2) * 64 + (child / 2) * 32;
            expected.push(quad(x, y, 32, 32));
        }
    }
    assert_eq!(quads, expected);
}

#[test]
fn world_too_small_to_divide_has_no_regions() {
    assert_eq!(BspStats::new(9, 31, 61, 61, 8).map_quads(), vec![]);
    assert_eq!(BspStats::new(9, 31, 128, 61, 8).map_quads(), vec![]);
    assert_eq!(BspStats::new(9, 31, 61, 128, 8).map_quads(), vec![]);
    assert_eq!(BspStats::new(31, 31, 31, 31, 1).map_quads(), vec![]);
    assert_eq!(BspStats::new(9, 31, 62, 62, 8).map_quads().len(), 4);
}

#[test]
fn oblong_world_is_divided_along_both_axes() {
    // mapH 100, mapW 50: halves 25 by 50, then 12 by 25, then 6 is below 10.
    let stats = BspStats::new(2, 10, 100, 50, 8);
    let quads = stats.map_quads();
    assert_eq!(quads.len(), 16);
    assert_eq!(quads[0], quad(0, 0, 12, 25));
    assert_eq!(quads[1], quad(12, 0, 12, 25));
    assert_eq!(quads[2], quad(0, 25, 12, 25));
    assert_eq!(quads[3], quad(12, 25, 12, 25));
    assert_eq!(quads[4], quad(25, 0, 12, 25));
    assert_eq!(quads[15], quad(37, 75, 12, 25));
}

#[test]
fn smallest_room_size_divides_down_to_single_cells() {
    let stats = BspStats::new(1, 1, 8, 8, 8);
    let quads = stats.map_quads();
    assert_eq!(quads.len(), 64);
    for q in quads.iter() {
        assert_eq!(q.dims, (1, 1));
    }
}

#[test]
fn no_region_of_the_result_can_be_split() {
    let cases = [
        BspStats::new(9, 31, 128, 128, 8),
        BspStats::new(2, 10, 100, 50, 8),
        BspStats::new(3, 7, 333, 1000, 8),
        BspStats::new(1, 1, 16, 16, 8),
        BspStats::new(5, 5, 5, 5, 8),
    ];
    for stats in cases.iter() {
        for q in stats.map_quads().iter() {
            assert_eq!(q.split(stats), vec![]);
        }
    }
}

#[test]
fn regions_lie_in_the_world_and_share_no_cell() {
    let cases = [
        BspStats::new(9, 31, 128, 128, 8),
        BspStats::new(2, 10, 100, 50, 8),
        BspStats::new(3, 7, 333, 200, 8),
    ];
    for stats in cases.iter() {
        let quads = stats.map_quads();
        for (i, a) in quads.iter().enumerate() {
            assert!(a.origin.0 + a.dims.0 <= stats.mapW);
            assert!(a.origin.1 + a.dims.1 <= stats.mapH);
            assert!(a.dims.0 >= stats.maxSize && a.dims.1 >= stats.maxSize);
            for b in quads.iter().skip(i + 1) {
                assert!(share_no_cell(a, b));
            }
        }
    }
}

#[test]
fn division_is_the_same_each_time() {
    let stats = BspStats::new(3, 7, 333, 200, 8);
    assert_eq!(stats.map_quads(), stats.map_quads());
}
