use rustversi::field::Field;
use rustversi::occupytype::OccupyType;
use rustversi::point::Point;

#[test]
fn field_setup_field_test() {
    let mut f = Field::new();
    f.setup_field(" standard start position


   *
   **
   *o
");
    println!("{}", f.to_string());
    let (w, b) = f.get_score_wb();
    assert_eq!(1, w);
    assert_eq!(4, b);
}

#[test]
fn field_init_field_test() {
    let mut f = Field::new();
    f.init();
    println!("{}", f.to_string());
    let (w, b) = f.get_score_wb();
    assert_eq!(2, w);
    assert_eq!(2, b);
}

#[test]
fn field_get_position_test() {
    let mut f = Field::new();
    f.init();
    println!("{}", f.to_string());
    let (w, b) = f.get_position_wb();
    println!("whites={:?},  blacks={:?}", w, b);
}

#[test]
fn field_is_valid_move1_test() {
    let mut f = Field::new();

    f.setup_field("


   *
   *o
   *o

");
    let p = Point::new(6, 4);
    let (valid, score) = f.is_valid_move(&p, OccupyType::Black);
    println!("{}", f.to_string());
    println!("valid={:?},  score={:?}", valid, score);
    assert_eq!(2, score);
    assert_eq!(true, valid);
}

#[test]
fn field_is_valid_move2_test() {
    let mut f = Field::new();

    f.setup_field("


   *
   *o
   *o

");
    let p = Point::new(6, 5);
    let (valid, score) = f.is_valid_move(&p, OccupyType::Black);
    println!("{}", f.to_string());
    println!("valid={:?},  score={:?}", valid, score);
    assert_eq!(true, valid);
    assert_eq!(1, score);
}

#[test]
fn field_is_valid_move3_test() {
    let mut f = Field::new();

    f.setup_field("


   *
   *o
   *o

");
    let p = Point::new(6, 6);
    let (valid, score) = f.is_valid_move(&p, OccupyType::Black);
    println!("{}", f.to_string());
    println!("valid={:?},  score={:?}", valid, score);
    assert_eq!(true, valid);
    assert_eq!(1, score);
}

#[test]
fn field_is_valid_move4_test() {
    let mut f = Field::new();

    f.setup_field("


   *
   *o
   *o
");
    let p = Point::new(6, 7);
    let (valid, score) = f.is_valid_move(&p, OccupyType::Black);
    println!("{}", f.to_string());
    println!("valid={:?},  score={:?}", valid, score);
    assert_eq!(false, valid);
}

#[test]
fn field_is_valid_move_edge1_test() {
    let mut f = Field::new();

    f.setup_field("
*******
    *o
    *o

");
    let p = Point::new(8, 8);
    println!("{}", f.to_string());
    let (valid, score) = f.is_valid_move(&p, OccupyType::White);
    println!("valid={:?},  score={:?}", valid, score);
    assert_eq!(false, valid);
}

#[test]
fn field_is_valid_move_edge2_test() {
    let mut f = Field::new();

    f.setup_field("
*******
     *o
     *o

");
    let p = Point::new(8, 8);
    println!("{}", f.to_string());
    let (valid, score) = f.is_valid_move(&p, OccupyType::Black);
    println!("valid={:?},  score={:?}", valid, score);
    assert_eq!(true, valid);
}

#[test]
fn field_is_valid_move_edge3_test() {
    let mut f = Field::new();

    f.setup_field("







o******
");
    let p = Point::new(8, 1);
    println!("{}", f.to_string());
    let (valid, score) = f.is_valid_move(&p, OccupyType::White);
    println!("valid={:?},  score={:?}", valid, score);
    assert_eq!(true, valid);
}

#[test]
fn field_get_moves_test() {
    let mut f = Field::new();

    f.setup_field("
*******
     *o
     *o

");
    println!("{}", f.to_string());
    let moves = f.get_list_of_moves(OccupyType::Black);
    println!("valid={:?}", moves);
}

#[test]
fn field_get_change_test() {
    let mut f = Field::new();

    f.setup_field("
*******
     *o
     *o

");
    let p = Point::new(8, 8);
    println!("{}", f.to_string());
    let n = f.move_in_game(&p, OccupyType::Black);
    println!("{}", f.to_string());
    assert_eq!(1, n);
}

#[test]
fn field_serialize_field_test() {
    let mut f = Field::new();
    f.setup_field("
*******
     *o
     *o

");
    let a = f.to_string();
    let s = f.serialize();
    f = Field::new();
    f.deserialize(&s).unwrap();
    let b = f.to_string();
    assert_eq!(a, b);
}
