use bidir_map::BidirMap;
use katam_rando::csv_loader::{CsvLoader, DoorRecord, RoomRecord};
use katam_rando::shuffler::{Destination, Door, Exit, ExitType, Room, ShuffleError, Shuffler};
use rand::{SeedableRng, StdRng};

fn one_way_exit(id: usize) -> Exit {
    Exit::new(id, 0x100 + 8 * id, 0x104 + 8 * id, ExitType::OneWay, -1)
}

fn two_way_exit(id: usize, linked: i32) -> Exit {
    Exit::new(id, 0x100 + 8 * id, 0x104 + 8 * id, ExitType::TwoWay, linked)
}

fn entrance(id: usize) -> Destination {
    Destination::new(id, [id as u8, 0, 0, 1])
}

fn empty_index() -> Shuffler {
    Shuffler::new(BidirMap::new(), BidirMap::new())
}

fn seeded(seed: usize) -> StdRng {
    let seed_words = [seed; 32];
    StdRng::from_seed(&seed_words[..])
}

fn room(
    id: usize,
    one_way_entrances: Vec<Destination>,
    two_way_entrances: Vec<Destination>,
    one_way_exits: Vec<Exit>,
    two_way_exits: Vec<Exit>,
) -> Room {
    Room { id, one_way_entrances, two_way_entrances, one_way_exits, two_way_exits }
}

fn door_row(doorid: usize, isoneway: bool, linkeddoor: Option<i32>) -> DoorRecord {
    DoorRecord {
        doorid,
        destination: format!("{:02X} 00 00 01", doorid),
        exitaddr1: format!("{:X}", 0x100 + 8 * doorid),
        exitaddr2: format!("{:X}", 0x104 + 8 * doorid),
        isoneway,
        linkeddoor,
    }
}

fn room_row(roomid: usize, lists: [&str; 4]) -> RoomRecord {
    let list = |text: &str| if text.is_empty() { None } else { Some(text.to_string()) };
    RoomRecord {
        roomid,
        onewayentranceids: list(lists[0]),
        twowayentranceids: list(lists[1]),
        onewayexitids: list(lists[2]),
        twowayexitids: list(lists[3]),
    }
}

fn small_map() -> (Shuffler, Room, Vec<Room>) {
    let loader = CsvLoader;
    let rows = vec![
        door_row(1, true, None),
        door_row(2, false, Some(3)),
        door_row(3, false, Some(2)),
        door_row(4, true, None),
        door_row(5, true, None),
        door_row(6, true, None),
        door_row(7, true, None),
    ];
    let door_table = loader.load_entrances(&rows);
    let doors = loader.load_doors(&door_table).unwrap();
    let shuffler = Shuffler::from_door_table(&doors).unwrap();
    let room_rows = vec![
        room_row(1, ["1", "3", "", "2"]),
        room_row(2, ["", "2", "4", "3"]),
        room_row(3, ["4 5 7", "", "6", ""]),
    ];
    let rooms = loader.load_rooms(&room_rows, &door_table).unwrap();
    let first = room(0, vec![], vec![], vec![one_way_exit(10), one_way_exit(11)], vec![]);
    (shuffler, first, rooms)
}

fn sorted(mut ids: Vec<usize>) -> Vec<usize> {
    ids.sort();
    ids
}

fn owner_of_exit(first: &Room, rooms: &[Room], exit: &Exit) -> usize {
    let holds = |room: &Room| {
        room.one_way_exits.iter().chain(room.two_way_exits.iter()).any(|own| own.id == exit.id)
    };
    if holds(first) {
        return first.id;
    }
    rooms.iter().find(|room| holds(room)).unwrap().id
}

fn owner_of_entrance(rooms: &[Room], destination: &Destination) -> (usize, ExitType) {
    for room in rooms {
        if room.one_way_entrances.iter().any(|own| own.id == destination.id) {
            return (room.id, ExitType::OneWay);
        }
        if room.two_way_entrances.iter().any(|own| own.id == destination.id) {
            return (room.id, ExitType::TwoWay);
        }
    }
    panic!("destination {} is no entrance", destination.id);
}

#[test]
fn it_works() {
    assert_eq!(2 + 2, 4);
}

#[test]
fn leftover_one_way_exits_and_entrances_are_paired_one_to_one() {
    let first = room(0, vec![], vec![], vec![one_way_exit(1), one_way_exit(2), one_way_exit(3)], vec![]);
    let rooms = vec![room(1, vec![entrance(11), entrance(12), entrance(13)], vec![], vec![], vec![])];
    let mut rng = seeded(1);
    let doors = empty_index().shuffle_rooms(first, &rooms, &mut rng).unwrap();
    assert_eq!(doors.len(), 3);
    assert_eq!(sorted(doors.iter().map(|door| door.1.id).collect()), vec![1, 2, 3]);
    assert_eq!(sorted(doors.iter().map(|door| door.0.id).collect()), vec![11, 12, 13]);
    let connected = doors[0];
    let unused_entrances: Vec<usize> =
        [11, 12, 13].iter().copied().filter(|id| *id != connected.0.id).collect();
    let dangling_exits: Vec<usize> =
        [1, 2, 3].iter().copied().filter(|id| *id != connected.1.id).collect();
    assert_eq!(doors[1].0.id, unused_entrances[0]);
    assert_eq!(doors[1].1.id, dangling_exits[0]);
    assert_eq!(doors[2].0.id, unused_entrances[1]);
    assert_eq!(doors[2].1.id, dangling_exits[1]);
}

#[test]
fn three_dangling_exits_and_two_entrances_are_a_count_mismatch() {
    let first = room(
        0,
        vec![],
        vec![],
        vec![one_way_exit(1), one_way_exit(2), one_way_exit(3), one_way_exit(4)],
        vec![],
    );
    let rooms = vec![room(1, vec![entrance(11), entrance(12), entrance(13)], vec![], vec![], vec![])];
    let mut rng = seeded(1);
    let result = empty_index().shuffle_rooms(first, &rooms, &mut rng);
    assert_eq!(result, Err(ShuffleError::LeftoverCountMismatch));
}

#[test]
fn a_room_behind_a_two_way_entrance_deadlocks_a_one_way_pool() {
    let first = room(0, vec![], vec![], vec![one_way_exit(1)], vec![]);
    let rooms = vec![room(1, vec![], vec![entrance(11)], vec![], vec![two_way_exit(12, 11)])];
    for seed in 0..8 {
        let mut rng = seeded(seed);
        let result = empty_index().shuffle_rooms(first.clone(), &rooms, &mut rng);
        assert_eq!(result, Err(ShuffleError::Deadlock));
    }
}

#[test]
fn a_room_without_entrances_deadlocks() {
    let first = room(0, vec![], vec![], vec![one_way_exit(1)], vec![]);
    let rooms = vec![room(1, vec![], vec![], vec![one_way_exit(2)], vec![])];
    let mut rng = seeded(3);
    let result = empty_index().shuffle_rooms(first, &rooms, &mut rng);
    assert_eq!(result, Err(ShuffleError::Deadlock));
}

#[test]
fn a_dead_end_is_not_connected_before_the_room_it_would_strand() {
    for seed in 0..20 {
        let first = room(0, vec![], vec![], vec![one_way_exit(1)], vec![]);
        let rooms = vec![
            room(1, vec![entrance(11)], vec![], vec![], vec![]),
            room(2, vec![entrance(21), entrance(22)], vec![entrance(23)], vec![one_way_exit(2), one_way_exit(3)], vec![]),
        ];
        let mut rng = seeded(seed);
        let doors = empty_index().shuffle_rooms(first, &rooms, &mut rng).unwrap();
        assert_eq!(doors.len(), 3);
        assert_eq!(doors[0].1.id, 1);
        assert!(doors[0].0.id == 21 || doors[0].0.id == 22);
        assert_eq!(doors[1].0.id, 11);
        assert_eq!(sorted(doors.iter().map(|door| door.1.id).collect()), vec![1, 2, 3]);
        assert_eq!(sorted(doors.iter().map(|door| door.0.id).collect()), vec![11, 21, 22]);
    }
}

#[test]
fn an_odd_number_of_dangling_two_way_exits_is_refused() {
    let first = room(0, vec![], vec![], vec![], vec![two_way_exit(2, 3)]);
    let mut rng = seeded(1);
    let result = empty_index().shuffle_rooms(first, &[], &mut rng);
    assert_eq!(result, Err(ShuffleError::OddTwoWayExits));
}

#[test]
fn a_two_way_connection_needs_the_index() {
    let first = room(0, vec![], vec![], vec![], vec![two_way_exit(2, 3)]);
    let rooms = vec![room(1, vec![], vec![entrance(3)], vec![], vec![two_way_exit(4, 5)])];
    let mut rng = seeded(1);
    let result = empty_index().shuffle_rooms(first, &rooms, &mut rng);
    assert_eq!(result, Err(ShuffleError::MissingConnection));
}

#[test]
fn dangling_two_way_exits_need_the_index() {
    let first = room(0, vec![], vec![], vec![], vec![two_way_exit(2, 3), two_way_exit(3, 2)]);
    let mut rng = seeded(1);
    let result = empty_index().shuffle_rooms(first, &[], &mut rng);
    assert_eq!(result, Err(ShuffleError::MissingConnection));
}

#[test]
fn no_rooms_and_no_exits_give_no_doors() {
    let first = room(0, vec![], vec![], vec![], vec![]);
    let mut rng = seeded(1);
    assert_eq!(empty_index().shuffle_rooms(first, &[], &mut rng), Ok(vec![]));
}

#[test]
fn rooms_with_the_id_of_the_first_room_are_left_out() {
    let first = room(0, vec![], vec![], vec![], vec![]);
    let rooms = vec![room(0, vec![entrance(1)], vec![], vec![], vec![])];
    let mut rng = seeded(1);
    assert_eq!(empty_index().shuffle_rooms(first, &rooms, &mut rng), Ok(vec![]));
}

#[test]
fn dangling_two_way_exits_are_paired_across_the_halves() {
    let (shuffler, _, _) = small_map();
    let first = room(0, vec![], vec![], vec![], vec![two_way_exit(2, 3), two_way_exit(3, 2)]);
    let mut rng = seeded(1);
    let doors = shuffler.shuffle_rooms(first, &[], &mut rng).unwrap();
    assert_eq!(doors.len(), 2);
    assert_eq!((doors[0].0.id, doors[0].1.id), (2, 2));
    assert_eq!((doors[1].0.id, doors[1].1.id), (3, 3));
    assert_eq!(doors[0].0.destination_bytes, [2, 0, 0, 1]);
    assert_eq!(doors[1].0.destination_bytes, [3, 0, 0, 1]);
}

#[test]
fn four_dangling_two_way_exits_pair_first_with_third() {
    let loader = CsvLoader;
    let rows = vec![
        door_row(1, false, Some(2)),
        door_row(2, false, Some(1)),
        door_row(3, false, Some(4)),
        door_row(4, false, Some(3)),
    ];
    let door_table = loader.load_entrances(&rows);
    let shuffler = Shuffler::from_door_table(&loader.load_doors(&door_table).unwrap()).unwrap();
    let exits = vec![two_way_exit(1, 2), one_way_exit(9), two_way_exit(2, 1), two_way_exit(3, 4), two_way_exit(4, 3)];
    let doors = shuffler.resolve_leftovers(&exits, &[entrance(8)]).unwrap();
    let pairs: Vec<(usize, usize)> = doors.iter().map(|door| (door.0.id, door.1.id)).collect();
    // the exits 1 2 | 3 4 are halved; exit 1 meets exit 3 and exit 2 meets exit 4:
    // exit 1 leads to the other side of exit 3, which is destination 4, and so on
    assert_eq!(pairs, vec![(8, 9), (4, 1), (2, 3), (3, 2), (1, 4)]);
}

#[test]
fn every_exit_is_resolved_exactly_once() {
    for seed in 0..20 {
        let (shuffler, first, rooms) = small_map();
        let mut rng = seeded(seed);
        let doors = shuffler.shuffle_rooms(first, &rooms, &mut rng).unwrap();
        assert_eq!(sorted(doors.iter().map(|door| door.1.id).collect()), vec![2, 3, 4, 6, 10, 11]);
        assert_eq!(sorted(doors.iter().map(|door| door.0.id).collect()), vec![1, 2, 3, 4, 5, 7]);
    }
}

#[test]
fn the_same_seed_gives_the_same_doors() {
    for seed in 0..10 {
        let (shuffler, first, rooms) = small_map();
        let mut first_rng = seeded(seed);
        let mut second_rng = seeded(seed);
        let first_run = shuffler.shuffle_rooms(first.clone(), &rooms, &mut first_rng).unwrap();
        let second_run = shuffler.shuffle_rooms(first, &rooms, &mut second_rng).unwrap();
        assert_eq!(first_run.len(), second_run.len());
        for (a, b) in first_run.iter().zip(second_run.iter()) {
            assert_eq!(a.0.id, b.0.id);
            assert_eq!(a.0.destination_bytes, b.0.destination_bytes);
            assert_eq!(a.1.id, b.1.id);
            assert_eq!(a.1.exit_addr1, b.1.exit_addr1);
            assert_eq!(a.1.exit_addr2, b.1.exit_addr2);
            assert_eq!(a.1.exit_type, b.1.exit_type);
            assert_eq!(a.1.linked_door_id, b.1.linked_door_id);
        }
    }
}

#[test]
fn different_seeds_give_different_doors() {
    let mut seen: Vec<Vec<(usize, usize)>> = Vec::new();
    for seed in 0..20 {
        let (shuffler, first, rooms) = small_map();
        let mut rng = seeded(seed);
        let doors = shuffler.shuffle_rooms(first, &rooms, &mut rng).unwrap();
        let pairs: Vec<(usize, usize)> = doors.iter().map(|door| (door.0.id, door.1.id)).collect();
        if !seen.contains(&pairs) {
            seen.push(pairs);
        }
    }
    assert!(seen.len() > 1);
}

#[test]
fn every_room_can_be_walked_to_from_the_first_room() {
    for seed in 0..20 {
        let (shuffler, first, rooms) = small_map();
        let mut rng = seeded(seed);
        let doors = shuffler.shuffle_rooms(first.clone(), &rooms, &mut rng).unwrap();
        let mut reached = vec![first.id];
        let mut grew = true;
        while grew {
            grew = false;
            for door in &doors {
                let from = owner_of_exit(&first, &rooms, &door.1);
                let (to, _) = owner_of_entrance(&rooms, &door.0);
                if reached.contains(&from) && !reached.contains(&to) {
                    reached.push(to);
                    grew = true;
                }
            }
        }
        assert_eq!(sorted(reached), vec![0, 1, 2, 3]);
    }
}

#[test]
fn every_door_leads_to_an_entrance_of_the_kind_of_its_exit() {
    for seed in 0..20 {
        let (shuffler, first, rooms) = small_map();
        let mut rng = seeded(seed);
        let doors = shuffler.shuffle_rooms(first, &rooms, &mut rng).unwrap();
        for door in &doors {
            let (_, kind) = owner_of_entrance(&rooms, &door.0);
            assert_eq!(kind, door.1.exit_type);
        }
    }
}

#[test]
fn the_doors_of_a_two_way_connection_lead_to_each_other() {
    for seed in 0..20 {
        let (shuffler, first, rooms) = small_map();
        let mut rng = seeded(seed);
        let doors = shuffler.shuffle_rooms(first, &rooms, &mut rng).unwrap();
        let two_way: Vec<&Door> = doors.iter().filter(|door| door.1.exit_type == ExitType::TwoWay).collect();
        assert_eq!(two_way.len(), 2);
        let (a, b) = (two_way[0], two_way[1]);
        assert_eq!(shuffler.find_corresponding_destination(b.1).unwrap().id, a.0.id);
        assert_eq!(shuffler.find_corresponding_destination(a.1).unwrap().id, b.0.id);
    }
}

#[test]
fn a_one_way_connection_makes_one_door_and_brings_all_exits() {
    let shuffler = empty_index();
    let selected = room(1, vec![entrance(11), entrance(12)], vec![], vec![one_way_exit(3)], vec![two_way_exit(4, 5)]);
    let made = shuffler.resolve_connection(&selected, entrance(12), one_way_exit(1), true).unwrap();
    assert_eq!(made.exit.id, 1);
    assert_eq!(made.doors.len(), 1);
    assert_eq!((made.doors[0].0.id, made.doors[0].1.id), (12, 1));
    assert_eq!(made.remaining_exits.iter().map(|exit| exit.id).collect::<Vec<usize>>(), vec![3, 4]);
    assert_eq!(
        made.leftover_one_way_entrances.iter().map(|d| d.id).collect::<Vec<usize>>(),
        vec![11]
    );
}

#[test]
fn a_two_way_connection_makes_two_doors_and_keeps_the_back_exit_out() {
    let (shuffler, _, rooms) = small_map();
    // room 2 is entered at destination 2; its own exit 3 is the way back
    let made = shuffler.resolve_connection(&rooms[1], rooms[1].two_way_entrances[0], two_way_exit(2, 3), false).unwrap();
    let pairs: Vec<(usize, usize)> = made.doors.iter().map(|door| (door.0.id, door.1.id)).collect();
    assert_eq!(pairs, vec![(2, 2), (3, 3)]);
    assert_eq!(made.remaining_exits.iter().map(|exit| exit.id).collect::<Vec<usize>>(), vec![4]);
    assert!(made.leftover_one_way_entrances.is_empty());
    assert_eq!(shuffler.make_doors(entrance(2), two_way_exit(2, 3), false).unwrap().len(), 2);
    assert_eq!(
        shuffler.find_remaining_exits(&rooms[1], entrance(2), true).unwrap().iter().map(|e| e.id).collect::<Vec<usize>>(),
        vec![4, 3]
    );
}

#[test]
fn a_step_takes_the_used_exit_out_of_the_pool() {
    let shuffler = empty_index();
    let exits = vec![one_way_exit(1), one_way_exit(2)];
    let rooms = vec![room(5, vec![entrance(11)], vec![], vec![one_way_exit(3)], vec![])];
    let mut rng = seeded(4);
    let made = shuffler.connect_new_room(&exits, &rooms, &mut rng).unwrap();
    assert_eq!(made.room_id, 5);
    assert_eq!(made.doors.len(), 1);
    assert_eq!(made.doors[0].0.id, 11);
    let used = made.doors[0].1.id;
    assert!(used == 1 || used == 2);
    assert_eq!(made.exits.iter().map(|exit| exit.id).collect::<Vec<usize>>(), vec![3 - used, 3]);
    assert!(made.leftover_one_way_entrances.is_empty());
    assert_eq!(
        Shuffler::calculate_new_exits(&exits, one_way_exit(1), &[one_way_exit(7)]).iter().map(|e| e.id).collect::<Vec<usize>>(),
        vec![2, 7]
    );
}

#[test]
fn a_step_without_a_selectable_room_is_a_deadlock() {
    let shuffler = empty_index();
    let mut rng = seeded(4);
    let result = shuffler.connect_new_room(&[one_way_exit(1)], &[], &mut rng);
    assert!(matches!(result, Err(ShuffleError::Deadlock)));
}

#[test]
fn a_connection_draws_an_entrance_of_the_asked_kind() {
    let shuffler = empty_index();
    let selected = room(1, vec![entrance(11), entrance(12)], vec![entrance(13)], vec![], vec![]);
    for seed in 0..10 {
        let mut rng = seeded(seed);
        let made = shuffler.build_room_connection_info(&selected, &mut rng, one_way_exit(1), true).unwrap();
        let used = made.doors[0].0.id;
        assert!(used == 11 || used == 12);
        assert_eq!(made.leftover_one_way_entrances.len(), 1);
        assert_eq!(made.leftover_one_way_entrances[0].id, 23 - used);
        let mut rng = seeded(seed);
        let made = shuffler.make_room_connection(&[one_way_exit(1)], &selected, &mut rng).unwrap();
        assert_eq!(made.exit.id, 1);
        assert_eq!(made.doors[0].1.id, 1);
    }
}

#[test]
fn rooms_are_taken_out_of_the_pool_by_id() {
    let rooms = vec![
        room(1, vec![entrance(11)], vec![], vec![], vec![]),
        room(2, vec![entrance(12)], vec![], vec![one_way_exit(5)], vec![]),
        room(1, vec![], vec![], vec![], vec![]),
    ];
    let kept = Shuffler::rooms_without(&rooms, 1);
    assert_eq!(kept.len(), 1);
    assert_eq!(kept[0].id, 2);
    assert_eq!(kept[0].one_way_entrances[0].id, 12);
    assert_eq!(kept[0].one_way_exits[0].id, 5);
}
