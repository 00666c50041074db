use mapgen::board::{Level, TileType};
use mapgen::bsp::Leaf;
use mapgen::bsp_level::{bsp_gen, bsp_gen_seeded, BspLevel};
use mapgen::error::GenError;
use mapgen::room::Room;
use mapgen::scatter::{random_room_gen, random_room_gen_seeded, RandomRoomLevel, RoomDimensions};
use rand::rngs::StdRng;
use rand::{Rng, SeedableRng};

fn shape(room: &Room) -> (String, usize, usize, usize, usize) {
    (room.id().clone(), room.x(), room.y(), room.width(), room.height())
}

fn shapes(level: &Level) -> Vec<(String, usize, usize, usize, usize)> {
    level.rooms().iter().map(shape).collect()
}

#[test]
fn bsp_scenario_fifty_by_fifty() {
    let level = bsp_gen("50", "50", "42", "6", "3", "3").unwrap();
    assert!(!level.rooms().is_empty());
    for room in level.rooms() {
        assert!(room.x2() <= 50);
        assert!(room.y2() <= 50);
        assert!(room.width() >= 3);
        assert!(room.height() >= 3);
        assert_eq!(room.id(), "bsp room");
    }
}

#[test]
fn scatter_scenario_thirty_by_thirty() {
    let level = random_room_gen("30", "30", "5", "7").unwrap();
    let rooms = level.rooms();
    assert!(rooms.len() >= 1 && rooms.len() <= 5);
    for (i, a) in rooms.iter().enumerate() {
        assert!(a.x2() <= 30 && a.y2() <= 30);
        for (j, b) in rooms.iter().enumerate() {
            if i != j {
                assert!(!a.intersects(b));
            }
        }
    }
}

#[test]
fn bsp_same_seed_same_rooms() {
    let a = bsp_gen("64", "48", "1234", "7", "3", "4").unwrap();
    let b = bsp_gen("64", "48", "1234", "7", "3", "4").unwrap();
    assert_eq!(shapes(&a), shapes(&b));
    assert_eq!(a.render(true), b.render(true));
}

#[test]
fn scatter_same_seed_same_rooms() {
    let a = random_room_gen("60", "60", "9", "99").unwrap();
    let b = random_room_gen("60", "60", "9", "99").unwrap();
    assert_eq!(shapes(&a), shapes(&b));
}

#[test]
fn bsp_different_seeds_differ() {
    let a = bsp_gen("80", "80", "1", "6", "3", "3").unwrap();
    let b = bsp_gen("80", "80", "2", "6", "3", "3").unwrap();
    assert_ne!(shapes(&a), shapes(&b));
}

#[test]
fn bsp_board_of_minimum_size_has_one_room() {
    for seed in 0..20u64 {
        let level = bsp_gen_seeded("6", "6", "x", "6", "3", "3", seed).unwrap();
        assert_eq!(level.rooms().len(), 1);
        let room = &level.rooms()[0];
        assert!(room.width() >= 3 && room.width() <= 6);
        assert!(room.height() >= 3 && room.height() <= 6);
        assert!(room.x2() <= 6 && room.y2() <= 6);
    }
}

#[test]
fn bsp_board_up_to_twice_minimum_is_not_cut() {
    let level = bsp_gen("12", "12", "5", "6", "3", "3").unwrap();
    assert_eq!(level.rooms().len(), 1);
    let level = bsp_gen("13", "12", "5", "6", "3", "3").unwrap();
    assert_eq!(level.rooms().len(), 2);
}

#[test]
fn bsp_min_size_is_raised_above_room_size() {
    let low = bsp_gen("40", "40", "11", "0", "5", "4").unwrap();
    let raised = bsp_gen("40", "40", "11", "6", "5", "4").unwrap();
    assert_eq!(shapes(&low), shapes(&raised));
    for room in low.rooms() {
        assert!(room.width() >= 5);
        assert!(room.height() >= 4);
    }
}

#[test]
fn bsp_rejects_text_that_is_no_number() {
    assert_eq!(bsp_gen("abc", "50", "1", "6", "3", "3").err(), Some(GenError::InvalidNumber));
    assert_eq!(bsp_gen("50", "", "1", "6", "3", "3").err(), Some(GenError::InvalidNumber));
    assert_eq!(bsp_gen("50", "50", "1", "-6", "3", "3").err(), Some(GenError::InvalidNumber));
    assert_eq!(bsp_gen("50", "50", "1", "6", "3.5", "3").err(), Some(GenError::InvalidNumber));
    assert_eq!(bsp_gen("50", "50", "1", "6", "3", " 3").err(), Some(GenError::InvalidNumber));
    assert_eq!(
        bsp_gen("99999999999999999999999", "50", "1", "6", "3", "3").err(),
        Some(GenError::InvalidNumber)
    );
}

#[test]
fn bsp_rejects_sizes_with_nothing_to_draw_from() {
    assert_eq!(bsp_gen("0", "50", "1", "6", "3", "3").err(), Some(GenError::InvalidLimits));
    assert_eq!(bsp_gen("50", "2", "1", "6", "3", "3").err(), Some(GenError::InvalidLimits));
    assert_eq!(bsp_gen("50", "50", "1", "6", "0", "3").err(), Some(GenError::InvalidLimits));
    assert_eq!(bsp_gen("50", "50", "1", "6", "3", "51").err(), Some(GenError::InvalidLimits));
}

#[test]
fn seed_that_is_no_number_falls_back() {
    let a = bsp_gen_seeded("50", "50", "none", "6", "3", "3", 42).unwrap();
    let b = bsp_gen("50", "50", "42", "6", "3", "3").unwrap();
    assert_eq!(shapes(&a), shapes(&b));
    let c = bsp_gen_seeded("50", "50", "42", "6", "3", "3", 7).unwrap();
    assert_eq!(shapes(&c), shapes(&b));
    assert!(bsp_gen("50", "50", "", "6", "3", "3").is_ok());
    let d = random_room_gen_seeded("30", "30", "5", "?", 7).unwrap();
    let e = random_room_gen("30", "30", "5", "7").unwrap();
    assert_eq!(shapes(&d), shapes(&e));
    assert!(random_room_gen("30", "30", "5", "").is_ok());
}

#[test]
fn scatter_rejects_bad_requests() {
    assert_eq!(random_room_gen("x", "30", "5", "7").err(), Some(GenError::InvalidNumber));
    assert_eq!(random_room_gen("30", "30", "five", "7").err(), Some(GenError::InvalidNumber));
    assert_eq!(random_room_gen("11", "30", "5", "7").err(), Some(GenError::InvalidLimits));
    assert_eq!(random_room_gen("30", "11", "5", "7").err(), Some(GenError::InvalidLimits));
    assert!(random_room_gen("12", "12", "5", "7").is_ok());
}

#[test]
fn error_messages() {
    assert_eq!(GenError::InvalidNumber.message(), "a parameter is not an unsigned decimal number");
    assert_eq!(GenError::InvalidLimits.message(), "the sizes leave nothing to draw a room from");
}

#[test]
fn scatter_stops_at_the_desired_count() {
    let level = random_room_gen("300", "300", "4", "3").unwrap();
    assert_eq!(level.rooms().len(), 4);
    let none = random_room_gen("300", "300", "0", "3").unwrap();
    assert_eq!(none.rooms().len(), 0);
}

#[test]
fn scatter_gives_up_on_a_crowded_board() {
    let level = random_room_gen("12", "12", "50", "3").unwrap();
    assert!(level.rooms().len() >= 1);
    assert!(level.rooms().len() < 50);
}

#[test]
fn scatter_labels_count_the_rooms() {
    let level = random_room_gen("200", "200", "12", "21").unwrap();
    for (i, room) in level.rooms().iter().enumerate() {
        assert_eq!(room.id(), &format!("ruin room: {}", i));
    }
}

#[test]
fn scatter_draws_in_the_order_column_row_class() {
    let mut rng = StdRng::seed_from_u64(7);
    let level = RandomRoomLevel::new(30, 30, 1, &mut rng);
    let mut same = StdRng::seed_from_u64(7);
    let x: usize = same.gen_range(0..30);
    let y: usize = same.gen_range(0..30);
    let weights = [4, 3, 4, 3, 2, 1];
    let dist = rand::distributions::WeightedIndex::new(&weights).unwrap();
    let pick: usize = rand::distributions::Distribution::sample(&dist, &mut same);
    let classes = [
        RoomDimensions::Maint3x3,
        RoomDimensions::Maint3x5,
        RoomDimensions::Maint5x3,
        RoomDimensions::Maint5x4,
        RoomDimensions::Maint10x5,
        RoomDimensions::Maint10x10,
    ];
    let width = classes[pick].get_width();
    let height = classes[pick].get_height();
    let x = if x + width > 30 { 30 - width } else { x };
    let y = if y + height > 30 { 30 - height } else { y };
    assert_eq!(shapes(&level), vec![("ruin room: 0".to_string(), x, y, width, height)]);
    assert_eq!(rng, same);
}

#[test]
fn bsp_single_cell_draws_width_height_column_row() {
    let mut rng = StdRng::seed_from_u64(5);
    let level = BspLevel::new(10, 9, &mut rng, 6, 3, 2);
    let mut same = StdRng::seed_from_u64(5);
    let _coin: i32 = same.gen_range(0..2);
    let width: usize = same.gen_range(3..=10);
    let height: usize = same.gen_range(2..=9);
    let x: usize = same.gen_range(0..=10 - width);
    let y: usize = same.gen_range(0..=9 - height);
    assert_eq!(shapes(&level), vec![("bsp room".to_string(), x, y, width, height)]);
    assert_eq!(rng, same);
}

#[test]
fn split_follows_coin_and_offset() {
    for seed in 0..30u64 {
        let mut rng = StdRng::seed_from_u64(seed);
        let mut leaf = Leaf::new(2, 3, 40, 40, 6, 3, 3);
        assert!(leaf.split(&mut rng));
        let mut same = StdRng::seed_from_u64(seed);
        let coin: i32 = same.gen_range(0..2);
        let at: usize = same.gen_range(6..34);
        let near = leaf.left().unwrap();
        let far = leaf.right().unwrap();
        if coin == 0 {
            assert_eq!((near.x(), near.y(), near.width(), near.height()), (2, 3, at, 40));
            assert_eq!((far.x(), far.y(), far.width(), far.height()), (2 + at, 3, 40 - at, 40));
        } else {
            assert_eq!((near.x(), near.y(), near.width(), near.height()), (2, 3, 40, at));
            assert_eq!((far.x(), far.y(), far.width(), far.height()), (2, 3 + at, 40, 40 - at));
        }
        assert_eq!(rng, same);
    }
}

#[test]
fn split_direction_is_forced_by_a_long_cell() {
    for seed in 0..20u64 {
        let mut rng = StdRng::seed_from_u64(seed);
        let mut wide = Leaf::new(0, 0, 50, 40, 6, 3, 3);
        assert!(wide.split(&mut rng));
        assert_eq!(wide.left().unwrap().height(), 40);
        assert!(wide.left().unwrap().width() < 50);
        let mut tall = Leaf::new(0, 0, 40, 50, 6, 3, 3);
        assert!(tall.split(&mut rng));
        assert_eq!(tall.left().unwrap().width(), 40);
        assert!(tall.left().unwrap().height() < 50);
    }
}

#[test]
fn split_is_refused_for_a_small_cell() {
    let mut rng = StdRng::seed_from_u64(1);
    let mut leaf = Leaf::new(0, 0, 12, 12, 6, 3, 3);
    assert!(!leaf.split(&mut rng));
    assert!(leaf.is_leaf());
    let mut tiny = Leaf::new(0, 0, 4, 4, 6, 3, 3);
    assert!(!tiny.split(&mut rng));
    assert!(tiny.is_leaf());
}

fn check_tree(node: &Leaf, rooms: &mut Vec<(usize, usize, usize, usize)>) {
    match (node.left(), node.right()) {
        (Some(a), Some(b)) => {
            assert!(node.room().is_none());
            let side_by_side = a.y() == b.y();
            if side_by_side {
                assert_eq!((a.x(), a.y(), a.height()), (node.x(), node.y(), node.height()));
                assert_eq!((b.x(), b.y(), b.height()), (a.x() + a.width(), node.y(), node.height()));
                assert_eq!(a.width() + b.width(), node.width());
            } else {
                assert_eq!((a.x(), a.y(), a.width()), (node.x(), node.y(), node.width()));
                assert_eq!((b.x(), b.y(), b.width()), (node.x(), a.y() + a.height(), node.width()));
                assert_eq!(a.height() + b.height(), node.height());
            }
            check_tree(a, rooms);
            check_tree(b, rooms);
        }
        (None, None) => {
            let room = node.room().unwrap();
            assert!(room.x() >= node.x() && room.x2() <= node.x() + node.width());
            assert!(room.y() >= node.y() && room.y2() <= node.y() + node.height());
            rooms.push((room.x(), room.y(), room.width(), room.height()));
        }
        _ => panic!("a node has one child"),
    }
}

#[test]
fn tree_is_a_partition_and_is_listed_left_to_right() {
    let mut rng = StdRng::seed_from_u64(77);
    let mut root = Leaf::new(0, 0, 70, 60, 6, 3, 3);
    root.generate(&mut rng);
    root.create_rooms(&mut rng);
    let mut expected = Vec::new();
    check_tree(&root, &mut expected);
    assert!(expected.len() > 4);
    let mut it = root.iter();
    let mut seen = Vec::new();
    let mut count = 0;
    while let Some(node) = it.next() {
        count += 1;
        if node.is_leaf() {
            let room = node.get_room().unwrap();
            seen.push((room.x(), room.y(), room.width(), room.height()));
        }
    }
    assert_eq!(seen, expected);
    assert_eq!(count, 2 * expected.len() - 1);
    let first = root.get_room().unwrap();
    assert_eq!((first.x(), first.y(), first.width(), first.height()), expected[0]);

    let mut again = StdRng::seed_from_u64(77);
    let level = BspLevel::new(70, 60, &mut again, 6, 3, 3);
    let listed: Vec<(usize, usize, usize, usize)> =
        level.rooms().iter().map(|r| (r.x(), r.y(), r.width(), r.height())).collect();
    assert_eq!(listed, expected);
    assert_eq!(level.rebuild_count(), expected.len() + 1);
}

#[test]
fn bsp_rooms_never_overlap() {
    let level = bsp_gen("90", "70", "31337", "8", "3", "3").unwrap();
    let rooms = level.rooms();
    assert!(rooms.len() > 3);
    for (i, a) in rooms.iter().enumerate() {
        for b in rooms.iter().skip(i + 1) {
            let apart = a.x2() <= b.x() || b.x2() <= a.x() || a.y2() <= b.y() || b.y2() <= a.y();
            assert!(apart);
        }
    }
}

#[test]
fn draws_vary_with_the_seed() {
    let mut widths = std::collections::BTreeSet::new();
    let mut columns = std::collections::BTreeSet::new();
    let mut cuts = std::collections::BTreeSet::new();
    let mut across = std::collections::BTreeSet::new();
    let mut classes = std::collections::BTreeSet::new();
    let mut scatter_columns = std::collections::BTreeSet::new();
    for seed in 0..40u64 {
        let mut rng = StdRng::seed_from_u64(seed);
        let level = BspLevel::new(12, 12, &mut rng, 6, 3, 3);
        widths.insert(level.rooms()[0].width());
        columns.insert(level.rooms()[0].x());
        let mut rng = StdRng::seed_from_u64(seed);
        let mut leaf = Leaf::new(0, 0, 40, 40, 6, 3, 3);
        leaf.split(&mut rng);
        let near = leaf.left().unwrap();
        across.insert(near.width() == 40);
        cuts.insert(if near.width() == 40 { near.height() } else { near.width() });
        let mut rng = StdRng::seed_from_u64(seed);
        let level = RandomRoomLevel::new(100, 100, 1, &mut rng);
        classes.insert((level.rooms()[0].width(), level.rooms()[0].height()));
        scatter_columns.insert(level.rooms()[0].x());
    }
    assert!(widths.len() > 3);
    assert!(columns.len() > 2);
    assert!(cuts.len() > 5);
    assert_eq!(across.len(), 2);
    assert!(classes.len() > 3);
    assert!(scatter_columns.len() > 10);
}

#[test]
fn level_starts_as_floor() {
    let level = Level::new(4, 3);
    assert_eq!(level.width(), 4);
    assert_eq!(level.height(), 3);
    assert_eq!(level.rooms().len(), 0);
    assert_eq!(level.rebuild_count(), 1);
    for row in 0..3 {
        for col in 0..4 {
            assert_eq!(level.tile(row, col), TileType::Floor);
        }
    }
    assert_eq!(level.render(true), "1111\n1111\n1111\n");
    assert_eq!(level.render(false), "111111111111");
}

#[test]
fn level_paints_walls_around_floor() {
    let mut level = Level::new(7, 6);
    level.add_room(&Room::new("a".to_string(), 1, 1, 4, 4));
    assert_eq!(level.rebuild_count(), 2);
    assert_eq!(level.render(true), "1111111\n1222211\n1211211\n1211211\n1222211\n1111111\n");
    assert_eq!(level.tile(1, 1), TileType::Wall);
    assert_eq!(level.tile(2, 2), TileType::Floor);
    assert_eq!(level.tile(4, 4), TileType::Wall);
    assert_eq!(level.tile(5, 5), TileType::Floor);
    level.add_room(&Room::new("b".to_string(), 3, 2, 4, 3));
    assert_eq!(level.rebuild_count(), 3);
    assert_eq!(level.rooms().len(), 2);
    assert_eq!(level.render(true), "1111111\n1222211\n1212222\n1212112\n1222222\n1111111\n");
    assert_eq!(level.render(false), "111111112222111212222121211212222221111111");
}

#[test]
fn level_of_no_cells() {
    let level = Level::new(0, 0);
    assert_eq!(level.render(true), "");
    let level = Level::new(0, 2);
    assert_eq!(level.render(true), "\n\n");
}

#[test]
fn tile_codes() {
    assert_eq!(TileType::Space.code(), 0);
    assert_eq!(TileType::Floor.code(), 1);
    assert_eq!(TileType::Wall.code(), 2);
    assert_eq!(TileType::Space.digit(), '0');
    assert_eq!(TileType::Floor.digit(), '1');
    assert_eq!(TileType::Wall.digit(), '2');
}

#[test]
fn room_dimensions_include_the_walls() {
    let all = [
        (RoomDimensions::Maint3x3, 5, 5),
        (RoomDimensions::Maint3x5, 5, 7),
        (RoomDimensions::Maint5x3, 7, 5),
        (RoomDimensions::Maint5x4, 7, 6),
        (RoomDimensions::Maint10x5, 12, 7),
        (RoomDimensions::Maint10x10, 12, 12),
    ];
    for (class, width, height) in all {
        assert_eq!(class.get_width(), width);
        assert_eq!(class.get_height(), height);
    }
}

#[test]
fn thirteen_by_ten_is_cut_once_for_every_seed() {
    for seed in 0..50u64 {
        let mut rng = StdRng::seed_from_u64(seed);
        let mut leaf = Leaf::new(0, 0, 13, 10, 6, 3, 3);
        assert!(leaf.split(&mut rng));
        let near = leaf.left().unwrap();
        let far = leaf.right().unwrap();
        assert_eq!((near.x(), near.y(), near.width(), near.height()), (0, 0, 6, 10));
        assert_eq!((far.x(), far.y(), far.width(), far.height()), (6, 0, 7, 10));

        let mut rng = StdRng::seed_from_u64(seed);
        let mut map = BspLevel {
            level: Level::new(13, 10),
            map_subsection_min_size: 6,
            map_subsection_min_room_width: 3,
            map_subsection_min_room_height: 3,
        };
        map.place_rooms(&mut rng);
        let rooms = map.level.rooms();
        assert_eq!(rooms.len(), 2);
        assert!(rooms[0].x2() <= 6);
        assert!(rooms[1].x() >= 6);
        assert_eq!((map.level.width(), map.level.height()), (13, 10));
    }
}

#[test]
fn split_happens_exactly_above_twice_the_minimum() {
    for (width, expected) in [(6, false), (12, false), (13, true), (30, true)] {
        let mut rng = StdRng::seed_from_u64(width as u64);
        let mut leaf = Leaf::new(0, 0, width, 4, 6, 3, 3);
        assert_eq!(leaf.split(&mut rng), expected);
        assert_eq!(leaf.is_leaf(), !expected);
    }
}

#[test]
fn bsp_rooms_share_no_cell_for_many_seeds() {
    for seed in 0..25u64 {
        let mut rng = StdRng::seed_from_u64(seed);
        let level = BspLevel::new(60, 45, &mut rng, 6, 3, 3);
        let rooms = level.rooms();
        for (i, a) in rooms.iter().enumerate() {
            for (j, b) in rooms.iter().enumerate() {
                if i != j {
                    let shared =
                        a.x() < b.x2() && b.x() < a.x2() && a.y() < b.y2() && b.y() < a.y2();
                    assert!(!shared);
                }
            }
        }
    }
}

#[test]
fn scattered_rooms_have_the_size_of_a_class_and_keep_apart() {
    let sizes = [(5, 5), (5, 7), (7, 5), (7, 6), (12, 7), (12, 12)];
    for seed in 0..25u64 {
        let mut rng = StdRng::seed_from_u64(seed);
        let mut map = RandomRoomLevel { level: Level::new(80, 70) };
        map.place_rooms_random(10, &mut rng);
        let rooms = map.level.rooms();
        assert!(rooms.len() >= 1 && rooms.len() <= 10);
        for (i, a) in rooms.iter().enumerate() {
            assert!(sizes.contains(&(a.width(), a.height())));
            assert!(a.x2() <= 80 && a.y2() <= 70);
            for (j, b) in rooms.iter().enumerate() {
                if i != j {
                    assert!(!a.intersects(b));
                    assert!(a.x2() < b.x() || b.x2() < a.x() || a.y2() < b.y() || b.y2() < a.y());
                }
            }
        }
    }
}
