use bidir_map::BidirMap;
use katam_rando::connectivity::IndexError;
use katam_rando::shuffler::{Destination, Door, Exit, ExitType, Shuffler};

fn door(id: usize, exit_type: ExitType, linked: i32) -> Door {
    Door(
        Destination::new(id, [id as u8, 1, 2, 3]),
        Exit::new(id, 0x1000 + id, 0x2000 + id, exit_type, linked),
    )
}

fn table() -> Vec<Option<Door>> {
    vec![
        None,
        Some(door(1, ExitType::OneWay, -1)),
        Some(door(2, ExitType::TwoWay, 4)),
        None,
        Some(door(4, ExitType::TwoWay, 2)),
    ]
}

#[test]
fn an_index_leads_to_the_other_side_of_a_two_way_door() {
    let shuffler = Shuffler::from_door_table(&table()).unwrap();
    let exit = shuffler.find_corresponding_exit(Destination::new(2, [0; 4])).unwrap();
    assert_eq!(exit.id, 4);
    assert_eq!(exit.exit_addr1, 0x1004);
    assert_eq!(exit.exit_addr2, 0x2004);
    let destination = shuffler.find_corresponding_destination(Exit::new(2, 0, 0, ExitType::TwoWay, 4)).unwrap();
    assert_eq!(destination.id, 4);
    assert_eq!(destination.destination_bytes, [4, 1, 2, 3]);
    assert_eq!(shuffler.find_corresponding_exit(Destination::new(4, [0; 4])).unwrap().id, 2);
    assert_eq!(
        shuffler.find_corresponding_destination(Exit::new(4, 0, 0, ExitType::TwoWay, 2)).unwrap().id,
        2
    );
}

#[test]
fn an_index_has_no_other_side_for_a_one_way_door_or_a_stranger() {
    let shuffler = Shuffler::from_door_table(&table()).unwrap();
    assert_eq!(shuffler.find_corresponding_exit(Destination::new(1, [0; 4])), None);
    assert_eq!(shuffler.find_corresponding_destination(Exit::new(1, 0, 0, ExitType::OneWay, -1)), None);
    assert_eq!(shuffler.find_corresponding_exit(Destination::new(3, [0; 4])), None);
    assert_eq!(shuffler.find_corresponding_destination(Exit::new(9, 0, 0, ExitType::TwoWay, 2)), None);
}

#[test]
fn a_link_is_found_from_its_right_side() {
    let mut pairs = BidirMap::new();
    let mut links = BidirMap::new();
    let left = door(2, ExitType::TwoWay, 4);
    let right = door(4, ExitType::TwoWay, 2);
    pairs.insert(left.0, left.1);
    pairs.insert(right.0, right.1);
    links.insert(left, right);
    let shuffler = Shuffler::new(pairs, links);
    assert_eq!(shuffler.find_corresponding_exit(right.0).unwrap().id, 2);
    assert_eq!(shuffler.find_corresponding_destination(right.1).unwrap().id, 2);
    assert_eq!(shuffler.find_corresponding_exit(left.0).unwrap().id, 4);
    assert_eq!(shuffler.find_corresponding_destination(left.1).unwrap().id, 4);
}

#[test]
fn the_first_pair_of_an_index_answers() {
    let mut pairs = BidirMap::new();
    let mut links = BidirMap::new();
    let a = door(1, ExitType::TwoWay, 2);
    let b = door(2, ExitType::TwoWay, 1);
    let c = door(3, ExitType::TwoWay, 1);
    pairs.insert(a.0, a.1);
    pairs.insert(b.0, b.1);
    pairs.insert(c.0, c.1);
    links.insert(a, b);
    links.insert(c, a);
    let shuffler = Shuffler::new(pairs, links);
    // door 1 stands on the left of one link and on the right of another: the left side wins
    assert_eq!(shuffler.find_corresponding_exit(a.0).unwrap().id, 2);
    assert_eq!(shuffler.find_corresponding_exit(c.0).unwrap().id, 1);
    assert_eq!(shuffler.find_corresponding_exit(b.0).unwrap().id, 1);
}

#[test]
fn an_empty_table_gives_an_empty_index() {
    let shuffler = Shuffler::from_door_table(&[]).unwrap();
    assert_eq!(shuffler.find_corresponding_exit(Destination::new(0, [0; 4])), None);
}

#[test]
fn a_door_that_comes_twice_takes_the_place_of_the_first() {
    let again = Door(
        Destination::new(2, [9, 9, 9, 9]),
        Exit::new(2, 0x9000, 0x9004, ExitType::TwoWay, 4),
    );
    let mut doors = table();
    doors.push(Some(again));
    let shuffler = Shuffler::from_door_table(&doors).unwrap();
    // door 4 still names the door 2 that it was linked to when it was read
    let exit = shuffler.find_corresponding_exit(Destination::new(4, [0; 4])).unwrap();
    assert_eq!((exit.id, exit.exit_addr1), (2, 0x1002));
    // door 2 leads to door 4 as before
    assert_eq!(shuffler.find_corresponding_exit(Destination::new(2, [0; 4])).unwrap().id, 4);
    assert_eq!(
        shuffler.find_corresponding_destination(Exit::new(2, 0, 0, ExitType::TwoWay, 4)).unwrap().id,
        4
    );
}

#[test]
fn a_door_that_is_named_twice_keeps_the_later_link() {
    let doors = vec![
        None,
        Some(door(1, ExitType::TwoWay, 2)),
        Some(door(2, ExitType::OneWay, -1)),
        Some(door(3, ExitType::TwoWay, 2)),
    ];
    let shuffler = Shuffler::from_door_table(&doors).unwrap();
    assert_eq!(shuffler.find_corresponding_exit(Destination::new(1, [0; 4])), None);
    assert_eq!(shuffler.find_corresponding_exit(Destination::new(3, [0; 4])).unwrap().id, 2);
    assert_eq!(shuffler.find_corresponding_exit(Destination::new(2, [0; 4])).unwrap().id, 3);
}

#[test]
fn a_link_that_is_replaced_leaves_its_place_to_the_last_link() {
    let mut doors: Vec<Option<Door>> = vec![None; 11];
    doors[1] = Some(door(1, ExitType::TwoWay, 5));
    doors[2] = Some(door(2, ExitType::TwoWay, 7));
    doors[3] = Some(door(3, ExitType::TwoWay, 8));
    // the door with id 3 comes again and names door 7, as door 2 does
    doors[4] = Some(door(3, ExitType::TwoWay, 7));
    doors[5] = Some(door(5, ExitType::OneWay, -1));
    doors[7] = Some(door(7, ExitType::OneWay, -1));
    doors[8] = Some(door(8, ExitType::OneWay, -1));
    doors[9] = Some(door(9, ExitType::OneWay, -1));
    // the door with id 1 comes again: its first link is taken out, and the last link
    // of the index, from door 3 to door 7, moves to the front
    doors[10] = Some(door(1, ExitType::TwoWay, 9));
    let shuffler = Shuffler::from_door_table(&doors).unwrap();
    assert_eq!(shuffler.find_corresponding_exit(Destination::new(7, [0; 4])).unwrap().id, 3);
    assert_eq!(shuffler.find_corresponding_exit(Destination::new(2, [0; 4])).unwrap().id, 7);
    assert_eq!(shuffler.find_corresponding_exit(Destination::new(1, [0; 4])).unwrap().id, 9);
    assert_eq!(shuffler.find_corresponding_exit(Destination::new(5, [0; 4])), None);
    assert_eq!(shuffler.find_corresponding_exit(Destination::new(8, [0; 4])), None);
}

#[test]
fn a_link_to_nowhere_is_refused() {
    let doors = vec![None, Some(door(1, ExitType::TwoWay, -1))];
    assert!(matches!(Shuffler::from_door_table(&doors), Err(IndexError::UnresolvedLink)));
    let doors = vec![None, Some(door(1, ExitType::TwoWay, 2))];
    assert!(matches!(Shuffler::from_door_table(&doors), Err(IndexError::UnresolvedLink)));
    let doors = vec![None, Some(door(1, ExitType::TwoWay, 0))];
    assert!(matches!(Shuffler::from_door_table(&doors), Err(IndexError::UnresolvedLink)));
}

#[test]
fn the_link_of_a_one_way_door_is_not_looked_at() {
    let doors = vec![None, Some(door(1, ExitType::OneWay, 77))];
    assert!(Shuffler::from_door_table(&doors).is_ok());
}
