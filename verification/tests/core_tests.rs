use rustversi::occupytype::OccupyType;
use rustversi::point::Point;

#[test]
fn occupy_print_test() {
    let p = OccupyType::Black;
    assert_eq!("#".to_string(), p.to_string());
    assert_eq!("#".to_string(), p.to_string());
}

#[test]
fn occupy_opposite_test() {
    assert_eq!(
        "O".to_string(),
        OccupyType::get_opposite_type(OccupyType::Black).to_string()
    );
}

#[test]
fn point_test() {
    let p = Point::new(4, 2);
    assert_eq!("(4,2)", p.to_string());
    assert_eq!("(4,2)", p.to_string());
    assert_eq!(2, p.y());
}

#[test]
fn point_eq_test() {
    let p1 = Point::new(4, 2);
    let p2 = &Point::new(4, 2);
    assert_eq!(p1, *p2);
}

#[test]
fn occupy_opposite_white_test() {
    assert_eq!(
        "#".to_string(),
        OccupyType::get_opposite_type(OccupyType::White).to_string()
    );
}

#[test]
fn occupy_from_string_test() {
    assert_eq!(OccupyType::Black, OccupyType::from_string(&"#".to_string()));
    assert_eq!(OccupyType::White, OccupyType::from_string(&"O".to_string()));
    assert_eq!(OccupyType::Empty, OccupyType::from_string(&" ".to_string()));
    assert_eq!(OccupyType::Empty, OccupyType::from_string(&"x".to_string()));
    assert_eq!(OccupyType::Empty, OccupyType::from_string(&"##".to_string()));
}

#[test]
fn check_point_bounds_test() {
    assert!(Point::check_point(1, 1));
    assert!(Point::check_point(8, 8));
    assert!(Point::check_point(3, 7));
    assert!(!Point::check_point(0, 4));
    assert!(!Point::check_point(9, 4));
    assert!(!Point::check_point(4, 0));
    assert!(!Point::check_point(4, 9));
    assert!(!Point::check_point(-3, 2));
}

#[test]
fn corner_detection_test() {
    for x in 1u8..=8 {
        for y in 1u8..=8 {
            let expected = (x == 1 || x == 8) && (y == 1 || y == 8);
            assert_eq!(expected, Point::new(x, y).is_corner());
        }
    }
    assert!(Point::new(1, 1).is_corner());
    assert!(Point::new(1, 8).is_corner());
    assert!(Point::new(8, 1).is_corner());
    assert!(Point::new(8, 8).is_corner());
}

#[test]
fn point_accessors_test() {
    let p = Point::new(3, 6);
    assert_eq!(3, p.x());
    assert_eq!(6, p.y());
}
