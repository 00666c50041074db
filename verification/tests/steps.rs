use mapgen::bsp::Leaf;
use mapgen::room::Room;
use mapgen::scatter::{candidate_room, class_at, touches_any, RoomDimensions};

#[test]
fn direction_follows_the_coin_for_a_nearly_square_cell() {
    let leaf = Leaf::new(0, 0, 40, 40, 6, 3, 3);
    assert!(leaf.split_direction(true));
    assert!(!leaf.split_direction(false));
    let leaf = Leaf::new(0, 0, 49, 40, 6, 3, 3);
    assert!(leaf.split_direction(true));
    assert!(!leaf.split_direction(false));
    let leaf = Leaf::new(0, 0, 40, 49, 6, 3, 3);
    assert!(leaf.split_direction(true));
    assert!(!leaf.split_direction(false));
}

#[test]
fn direction_is_forced_from_a_quarter_longer() {
    let wide = Leaf::new(0, 0, 50, 40, 6, 3, 3);
    assert!(!wide.split_direction(true));
    assert!(!wide.split_direction(false));
    let tall = Leaf::new(0, 0, 40, 50, 6, 3, 3);
    assert!(tall.split_direction(true));
    assert!(tall.split_direction(false));
    let wide = Leaf::new(0, 0, 5, 4, 6, 3, 3);
    assert!(!wide.split_direction(true));
}

#[test]
fn limit_of_a_cut() {
    let leaf = Leaf::new(0, 0, 50, 13, 6, 3, 3);
    assert_eq!(leaf.split_limit(false), Some(44));
    assert_eq!(leaf.split_limit(true), Some(7));
    let leaf = Leaf::new(0, 0, 12, 5, 6, 3, 3);
    assert_eq!(leaf.split_limit(false), None);
    assert_eq!(leaf.split_limit(true), None);
}

#[test]
fn cut_across_the_width() {
    let mut leaf = Leaf::new(2, 3, 40, 30, 6, 3, 3);
    leaf.split_at(false, 10);
    assert!(!leaf.is_leaf());
    let near = leaf.left().unwrap();
    let far = leaf.right().unwrap();
    assert_eq!((near.x(), near.y(), near.width(), near.height()), (2, 3, 10, 30));
    assert_eq!((far.x(), far.y(), far.width(), far.height()), (12, 3, 30, 30));
    assert!(near.is_leaf() && far.is_leaf());
    assert!(near.room().is_none() && far.room().is_none());
}

#[test]
fn cut_across_the_height() {
    let mut leaf = Leaf::new(2, 3, 40, 30, 6, 3, 3);
    leaf.split_at(true, 10);
    let near = leaf.left().unwrap();
    let far = leaf.right().unwrap();
    assert_eq!((near.x(), near.y(), near.width(), near.height()), (2, 3, 40, 10));
    assert_eq!((far.x(), far.y(), far.width(), far.height()), (2, 13, 40, 20));
}

#[test]
fn carve_places_the_room_from_the_cell_origin() {
    let mut leaf = Leaf::new(2, 3, 10, 10, 6, 3, 3);
    assert!(leaf.get_room().is_none());
    leaf.carve(4, 5, 1, 2);
    let room = leaf.get_room().unwrap();
    assert_eq!(room, Room::new("bsp room".to_string(), 3, 5, 4, 5));
}

#[test]
fn first_room_prefers_the_near_subtree() {
    let mut leaf = Leaf::new(0, 0, 40, 30, 6, 3, 3);
    leaf.split_at(false, 10);
    assert!(leaf.get_room().is_none());
    let mut root = Leaf::new(0, 0, 40, 30, 6, 3, 3);
    let mut rng = <rand::rngs::StdRng as rand::SeedableRng>::seed_from_u64(3);
    root.split_at(false, 10);
    root.create_rooms(&mut rng);
    let near = root.left().unwrap().room().unwrap().clone();
    assert_eq!(root.get_room().unwrap(), near);
    assert!(root.room().is_none());
}

#[test]
fn class_table_order() {
    assert_eq!(class_at(0), RoomDimensions::Maint3x3);
    assert_eq!(class_at(1), RoomDimensions::Maint3x5);
    assert_eq!(class_at(2), RoomDimensions::Maint5x3);
    assert_eq!(class_at(3), RoomDimensions::Maint5x4);
    assert_eq!(class_at(4), RoomDimensions::Maint10x5);
    assert_eq!(class_at(5), RoomDimensions::Maint10x10);
}

#[test]
fn candidate_is_kept_where_it_fits() {
    let room = candidate_room(30, 30, 0, 4, 9, RoomDimensions::Maint5x4);
    assert_eq!(room, Room::new("ruin room: 0".to_string(), 4, 9, 7, 6));
    let room = candidate_room(30, 30, 3, 23, 24, RoomDimensions::Maint5x4);
    assert_eq!(room, Room::new("ruin room: 3".to_string(), 23, 24, 7, 6));
}

#[test]
fn candidate_is_moved_back_to_the_edge() {
    let room = candidate_room(30, 30, 12, 25, 3, RoomDimensions::Maint10x10);
    assert_eq!(room, Room::new("ruin room: 12".to_string(), 18, 3, 12, 12));
    let room = candidate_room(30, 40, 1, 29, 39, RoomDimensions::Maint3x5);
    assert_eq!(room, Room::new("ruin room: 1".to_string(), 25, 33, 5, 7));
    let room = candidate_room(12, 12, 0, 11, 11, RoomDimensions::Maint10x10);
    assert_eq!(room, Room::new("ruin room: 0".to_string(), 0, 0, 12, 12));
}

#[test]
fn candidate_touching_a_placed_room_collides() {
    let placed = vec![
        Room::new("a".to_string(), 0, 0, 5, 5),
        Room::new("b".to_string(), 20, 20, 5, 5),
    ];
    assert!(touches_any(&Room::new("c".to_string(), 5, 5, 3, 3), &placed));
    assert!(touches_any(&Room::new("c".to_string(), 22, 10, 3, 10), &placed));
    assert!(!touches_any(&Room::new("c".to_string(), 6, 6, 3, 3), &placed));
    assert!(!touches_any(&Room::new("c".to_string(), 6, 6, 3, 3), &Vec::new()));
}

#[test]
fn a_grown_tree_has_no_corridors() {
    let mut rng = <rand::rngs::StdRng as rand::SeedableRng>::seed_from_u64(9);
    let mut root = Leaf::new(0, 0, 60, 60, 6, 3, 3);
    root.generate(&mut rng);
    root.create_rooms(&mut rng);
    let mut it = root.iter();
    while let Some(node) = it.next() {
        assert!(node.corridors().is_empty());
        assert_eq!(node.is_leaf(), node.room().is_some());
    }
    assert!(it.next().is_none());
}
