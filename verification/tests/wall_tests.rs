use puzzles::wall::Wall;

#[test]
fn stable_wall_yields_an_order() {
    let mut wall = Wall::new(2);
    wall.add_row(b"AB".to_vec());
    wall.add_row(b"AB".to_vec());
    assert_eq!(wall.polyomino_placement_order(), Some(b"AB".to_vec()));
}

#[test]
fn interlocked_wall_has_no_order() {
    let mut wall = Wall::new(2);
    wall.add_row(b"AB".to_vec());
    wall.add_row(b"BA".to_vec());
    assert_eq!(wall.polyomino_placement_order(), None);
}

#[test]
fn single_row_wall_is_always_stable() {
    let mut wall = Wall::new(1);
    wall.add_row(b"ZCA".to_vec());
    assert_eq!(wall.polyomino_placement_order(), Some(b"ACZ".to_vec()));
}

#[test]
fn support_depends_on_what_is_placed() {
    let mut wall = Wall::new(2);
    wall.add_row(b"AA".to_vec());
    wall.add_row(b"BB".to_vec());
    // B carries A: B is placeable first, then A
    assert_eq!(wall.polyomino_placement_order(), Some(b"BA".to_vec()));
}
