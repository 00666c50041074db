use mapgen::number::{parse_usize, to_decimal};
use mapgen::room::{floor_sqrt, Point, Room};

#[test]
fn room_new_computes_corner_and_center() {
    let room = Room::new("hall".to_string(), 3, 4, 7, 10);
    assert_eq!(room.id(), "hall");
    assert_eq!(room.x(), 3);
    assert_eq!(room.y(), 4);
    assert_eq!(room.width(), 7);
    assert_eq!(room.height(), 10);
    assert_eq!(room.x2(), 10);
    assert_eq!(room.y2(), 14);
    assert_eq!(room.center(), Point::new(6, 9));
}

#[test]
fn room_clone_is_equal() {
    let room = Room::new("hall".to_string(), 3, 4, 7, 10);
    assert_eq!(room.clone(), room);
}

#[test]
fn rooms_with_equal_labels_are_allowed() {
    let a = Room::new("same".to_string(), 0, 0, 2, 2);
    let b = Room::new("same".to_string(), 5, 5, 2, 2);
    assert_eq!(a.id(), b.id());
    assert_ne!(a, b);
}

#[test]
fn intersects_counts_overlap() {
    let a = Room::new("a".to_string(), 0, 0, 5, 5);
    let b = Room::new("b".to_string(), 3, 3, 5, 5);
    assert!(a.intersects(&b));
    assert!(b.intersects(&a));
    assert!(a.intersects(&a));
}

#[test]
fn intersects_counts_touching_edges_and_corners() {
    let a = Room::new("a".to_string(), 0, 0, 5, 5);
    let right = Room::new("b".to_string(), 5, 0, 5, 5);
    let below = Room::new("c".to_string(), 0, 5, 5, 5);
    let corner = Room::new("d".to_string(), 5, 5, 5, 5);
    assert!(a.intersects(&right));
    assert!(a.intersects(&below));
    assert!(a.intersects(&corner));
    assert!(corner.intersects(&a));
}

#[test]
fn intersects_is_false_with_a_gap() {
    let a = Room::new("a".to_string(), 0, 0, 5, 5);
    let right = Room::new("b".to_string(), 6, 0, 5, 5);
    let below = Room::new("c".to_string(), 0, 6, 5, 5);
    assert!(!a.intersects(&right));
    assert!(!right.intersects(&a));
    assert!(!a.intersects(&below));
    assert!(!below.intersects(&a));
}

#[test]
fn distance_is_euclidean_and_rounded_down() {
    let room = Room::new("a".to_string(), 0, 0, 4, 4);
    assert_eq!(room.center(), Point::new(2, 2));
    assert_eq!(room.get_distance_to(&Point::new(5, 6)), 5);
    assert_eq!(room.get_distance_to(&Point::new(2, 2)), 0);
    assert_eq!(room.get_distance_to(&Point::new(3, 3)), 1);
    assert_eq!(room.get_distance_to(&Point::new(4, 4)), 2);
    assert_eq!(room.get_distance_to(&Point::new(12, 2)), 10);
    assert_eq!(room.get_distance_to(&Point::new(0, 0)), 2);
    assert_eq!(room.get_distance_to(&Point::new(0, 2)), 2);
}

#[test]
fn floor_sqrt_values() {
    assert_eq!(floor_sqrt(0), 0);
    assert_eq!(floor_sqrt(1), 1);
    assert_eq!(floor_sqrt(3), 1);
    assert_eq!(floor_sqrt(4), 2);
    assert_eq!(floor_sqrt(99), 9);
    assert_eq!(floor_sqrt(100), 10);
    assert_eq!(floor_sqrt(1_000_000), 1000);
    assert_eq!(floor_sqrt(usize::MAX), (usize::MAX as f64).sqrt() as usize - 1);
}

#[test]
fn parse_usize_reads_decimal_numbers() {
    assert_eq!(parse_usize("0"), Some(0));
    assert_eq!(parse_usize("42"), Some(42));
    assert_eq!(parse_usize("+42"), Some(42));
    assert_eq!(parse_usize("007"), Some(7));
    assert_eq!(parse_usize(&usize::MAX.to_string()), Some(usize::MAX));
}

#[test]
fn parse_usize_refuses_everything_else() {
    for text in ["", "+", "-", "-1", "1 ", " 1", "1_000", "0x10", "1.0", "++1", "1+", "٣", "abc"] {
        assert_eq!(parse_usize(text), None);
        assert_eq!(parse_usize(text), text.parse::<usize>().ok());
    }
    let too_large = format!("{}0", usize::MAX);
    assert_eq!(parse_usize(&too_large), None);
    let one_more = "18446744073709551616";
    assert_eq!(parse_usize(one_more), one_more.parse::<usize>().ok());
}

#[test]
fn to_decimal_writes_digits() {
    assert_eq!(to_decimal(0), "0");
    assert_eq!(to_decimal(7), "7");
    assert_eq!(to_decimal(10), "10");
    assert_eq!(to_decimal(1234567890), "1234567890");
    assert_eq!(to_decimal(usize::MAX), usize::MAX.to_string());
}

#[test]
fn decimal_text_round_trips() {
    for n in [0usize, 1, 9, 10, 99, 100, 101, 65535, usize::MAX] {
        assert_eq!(parse_usize(&to_decimal(n)), Some(n));
    }
}

#[test]
fn fields_round_trip() {
    let room = Room::new("hall".to_string(), 3, 4, 7, 10);
    let fields = room.fields();
    assert_eq!(fields.id, "hall");
    assert_eq!((fields.x, fields.y, fields.x2, fields.y2), (3, 4, 10, 14));
    assert_eq!((fields.width, fields.height), (7, 10));
    assert_eq!(fields.center, Point::new(6, 9));
    let back = Room::from_fields(fields).unwrap();
    assert_eq!(back, room);
    let again = back.fields();
    assert_eq!((again.id, again.x, again.y, again.x2, again.y2), ("hall".to_string(), 3, 4, 10, 14));
}

#[test]
fn from_fields_refuses_an_inconsistent_record() {
    let room = Room::new("hall".to_string(), 3, 4, 7, 10);
    let mut fields = room.fields();
    fields.x2 = 11;
    assert!(Room::from_fields(fields).is_none());
    let mut fields = room.fields();
    fields.center = Point::new(0, 0);
    assert!(Room::from_fields(fields).is_none());
    let mut fields = room.fields();
    fields.width = 0;
    fields.x2 = 3;
    fields.center = Point::new(3, 9);
    assert!(Room::from_fields(fields).is_none());
    let mut fields = room.fields();
    fields.x = usize::MAX;
    assert!(Room::from_fields(fields).is_none());
}
