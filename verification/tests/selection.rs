use katam_rando::shuffler::{Destination, Exit, ExitType, Room, Shuffler};

fn exit(id: usize, exit_type: ExitType) -> Exit {
    Exit::new(id, 0, 0, exit_type, -1)
}

fn exits(one_way: usize, two_way: usize) -> Vec<Exit> {
    let mut all = Vec::new();
    for id in 0..one_way {
        all.push(exit(id, ExitType::OneWay));
    }
    for id in 0..two_way {
        all.push(exit(100 + id, ExitType::TwoWay));
    }
    all
}

fn shaped(id: usize, shape: [usize; 4]) -> Room {
    let destinations = |count: usize, base: usize| {
        (0..count).map(|n| Destination::new(base + n, [0, 0, 0, 0])).collect::<Vec<Destination>>()
    };
    Room {
        id,
        one_way_entrances: destinations(shape[0], 1000 * id),
        two_way_entrances: destinations(shape[1], 1000 * id + 100),
        one_way_exits: (0..shape[2]).map(|n| exit(1000 * id + 200 + n, ExitType::OneWay)).collect(),
        two_way_exits: (0..shape[3]).map(|n| exit(1000 * id + 300 + n, ExitType::TwoWay)).collect(),
    }
}

#[test]
fn an_exit_type_exists_when_an_exit_has_it() {
    assert!(Shuffler::exit_type_exists(&exits(1, 0), ExitType::OneWay));
    assert!(!Shuffler::exit_type_exists(&exits(1, 0), ExitType::TwoWay));
    assert!(Shuffler::exit_type_exists(&exits(2, 1), ExitType::TwoWay));
    assert!(!Shuffler::exit_type_exists(&[], ExitType::OneWay));
}

#[test]
fn exits_of_a_type_keep_their_order() {
    let mixed = vec![
        exit(1, ExitType::TwoWay),
        exit(2, ExitType::OneWay),
        exit(3, ExitType::TwoWay),
        exit(4, ExitType::OneWay),
    ];
    let ids = |found: Vec<Exit>| found.iter().map(|e| e.id).collect::<Vec<usize>>();
    assert_eq!(ids(Shuffler::get_exits_of_type(&mixed, ExitType::OneWay)), vec![2, 4]);
    assert_eq!(ids(Shuffler::get_exits_of_type(&mixed, ExitType::TwoWay)), vec![1, 3]);
}

#[test]
fn a_matching_entrance_needs_an_exit_of_its_kind() {
    assert!(Shuffler::room_has_matching_entrance(&shaped(1, [1, 0, 0, 0]), &exits(1, 0)));
    assert!(!Shuffler::room_has_matching_entrance(&shaped(1, [1, 0, 0, 0]), &exits(0, 1)));
    assert!(Shuffler::room_has_matching_entrance(&shaped(1, [0, 1, 0, 0]), &exits(0, 1)));
    assert!(!Shuffler::room_has_matching_entrance(&shaped(1, [0, 0, 5, 5]), &exits(3, 3)));
}

#[test]
fn opposing_rooms_are_found_among_the_other_rooms() {
    let one_to_two = shaped(1, [1, 0, 0, 1]);
    let two_to_one = shaped(2, [0, 1, 1, 0]);
    let plain = shaped(3, [1, 0, 1, 0]);
    let pool = vec![plain, one_to_two, two_to_one];
    assert!(Shuffler::check_opposing_exit_room_exists_one_to_two(&pool, 3, 2));
    assert!(Shuffler::check_opposing_exit_room_exists_two_to_one(&pool, 3, 1));
    // the judged room and the selected room do not count
    assert!(!Shuffler::check_opposing_exit_room_exists_one_to_two(&pool, 1, 2));
    assert!(!Shuffler::check_opposing_exit_room_exists_one_to_two(&pool, 3, 1));
    assert!(!Shuffler::check_opposing_exit_room_exists_two_to_one(&pool, 2, 1));
    assert!(!Shuffler::check_opposing_exit_room_exists_two_to_one(&pool, 3, 2));
    assert!(!Shuffler::check_opposing_exit_room_exists_one_to_two(&pool[..1], 8, 9));
    assert!(!Shuffler::check_opposing_exit_room_exists_two_to_one(&[], 8, 9));
}

#[test]
fn counts_are_decremented_but_not_below_zero() {
    assert_eq!(Shuffler::decrement_count(0), 0);
    assert_eq!(Shuffler::decrement_count(1), 0);
    assert_eq!(Shuffler::decrement_count(2), 1);
    assert_eq!(Shuffler::decrement_count(10), 9);
}

#[test]
fn a_room_entered_two_way_brings_one_two_way_exit_less() {
    assert_eq!(Shuffler::calculate_two_way_exit_count(&shaped(1, [1, 1, 0, 3])), 3);
    assert_eq!(Shuffler::calculate_two_way_exit_count(&shaped(1, [0, 1, 0, 3])), 2);
    assert_eq!(Shuffler::calculate_two_way_exit_count(&shaped(1, [0, 1, 0, 0])), 0);
}

#[test]
fn new_exit_counts_follow_the_entrances_of_the_room() {
    // both kinds of entrances: one exit of each kind is taken to be used up
    assert_eq!(Shuffler::count_new_exits(&exits(3, 2), &shaped(1, [1, 1, 4, 5])), (2 + 4, 1 + 5));
    // one-way entrances only
    assert_eq!(Shuffler::count_new_exits(&exits(3, 2), &shaped(1, [2, 0, 4, 5])), (2 + 4, 2 + 5));
    // two-way entrances only: one of the room's two-way exits is the way back
    assert_eq!(Shuffler::count_new_exits(&exits(3, 2), &shaped(1, [0, 1, 4, 5])), (3 + 4, 1 + 4));
    assert_eq!(Shuffler::count_new_exits(&exits(1, 0), &shaped(1, [1, 0, 0, 0])), (0, 0));
    assert_eq!(Shuffler::count_new_exits(&exits(0, 0), &shaped(1, [1, 1, 0, 0])), (0, 0));
}

#[test]
fn a_room_is_valid_with_an_exit_of_its_kind_or_a_room_that_converts() {
    let one_way = shaped(1, [1, 0, 0, 0]);
    let two_way = shaped(2, [0, 1, 0, 0]);
    let both = shaped(3, [1, 1, 0, 0]);
    assert!(Shuffler::validate_room(&one_way, 1, 0, false, false));
    assert!(!Shuffler::validate_room(&one_way, 0, 5, true, false));
    assert!(Shuffler::validate_room(&one_way, 0, 5, false, true));
    assert!(Shuffler::validate_room(&two_way, 0, 1, false, false));
    assert!(!Shuffler::validate_room(&two_way, 5, 0, false, true));
    assert!(Shuffler::validate_room(&two_way, 5, 0, true, false));
    assert!(Shuffler::validate_room(&both, 0, 1, false, false));
    assert!(Shuffler::validate_room(&both, 1, 0, false, false));
    assert!(!Shuffler::validate_room(&both, 0, 0, false, false));
}

#[test]
fn a_room_blocks_when_it_strands_another() {
    // the candidate uses up the only one-way exit and brings a two-way exit;
    // the other room can only be entered one-way and nothing converts
    let candidate = shaped(1, [1, 0, 0, 1]);
    let stranded = shaped(2, [1, 0, 0, 0]);
    let pool = vec![candidate.clone(), stranded.clone()];
    assert!(!Shuffler::room_does_not_block_full_access(&candidate, &exits(1, 0), &pool));
    // with a second one-way exit waiting the other room stays connectable
    assert!(Shuffler::room_does_not_block_full_access(&candidate, &exits(2, 0), &pool));
    // a room that turns two-way into one-way keeps it connectable too
    let converter = shaped(3, [0, 1, 1, 0]);
    let wider = vec![candidate.clone(), stranded.clone(), converter];
    assert!(Shuffler::room_does_not_block_full_access(&candidate, &exits(1, 0), &wider));
    // the candidate itself is not judged
    assert!(Shuffler::room_does_not_block_full_access(&stranded, &exits(1, 0), &[stranded.clone()]));
}

#[test]
fn a_room_cannot_supply_itself() {
    // one one-way exit waits; the first room has a one-way entrance and no exit; the
    // second can be entered both ways and left one-way only
    let dead_end = shaped(1, [1, 0, 0, 0]);
    let both_ways = shaped(2, [1, 1, 2, 0]);
    let pool = vec![dead_end.clone(), both_ways.clone()];
    assert!(!Shuffler::room_does_not_block_full_access(&dead_end, &exits(1, 0), &pool));
    assert!(Shuffler::room_does_not_block_full_access(&both_ways, &exits(1, 0), &pool));
    assert_eq!(Shuffler::find_selectable_rooms(&exits(1, 0), &pool), vec![1]);
}

#[test]
fn the_selected_room_cannot_supply_later() {
    // the selected room turns one-way into two-way, but its exits are counted already
    let selected = shaped(1, [1, 0, 0, 0]);
    let waiting = shaped(2, [0, 1, 0, 0]);
    let supplier = shaped(1, [1, 0, 0, 1]);
    let pool = vec![selected.clone(), waiting.clone(), supplier];
    assert!(!Shuffler::room_does_not_block_full_access(&selected, &exits(1, 0), &pool));
    let third = shaped(3, [1, 0, 0, 1]);
    let pool = vec![selected.clone(), waiting, third];
    assert!(Shuffler::room_does_not_block_full_access(&selected, &exits(2, 0), &pool));
}

#[test]
fn a_room_without_entrances_blocks_and_is_blocked() {
    let closed = shaped(1, [0, 0, 1, 1]);
    let open = shaped(2, [1, 0, 0, 0]);
    let pool = vec![closed.clone(), open.clone()];
    assert!(!Shuffler::room_does_not_block_full_access(&closed, &exits(3, 3), &pool));
    assert!(!Shuffler::room_does_not_block_full_access(&open, &exits(3, 3), &pool));
    assert_eq!(Shuffler::find_selectable_rooms(&exits(3, 3), &pool), Vec::<usize>::new());
}

#[test]
fn selectable_rooms_are_found_in_order() {
    let a = shaped(1, [1, 0, 1, 0]);
    let b = shaped(2, [0, 1, 0, 1]);
    let c = shaped(3, [1, 0, 1, 0]);
    let pool = vec![a, b, c];
    // only a one-way exit waits: the rooms with a one-way entrance match, but the room
    // with the two-way entrance would be stranded, since no room brings a two-way exit
    assert_eq!(Shuffler::find_selectable_rooms(&exits(1, 0), &pool), Vec::<usize>::new());
    // a room that is entered one-way and left two-way can supply one later; that room
    // itself would use up the one-way exit that the first and the third room need
    let d = shaped(4, [1, 0, 0, 1]);
    let pool = vec![pool[0].clone(), pool[1].clone(), pool[2].clone(), d];
    assert_eq!(Shuffler::find_selectable_rooms(&exits(1, 0), &pool), vec![0, 2]);
    assert_eq!(Shuffler::find_selectable_rooms(&exits(2, 0), &pool), vec![0, 2, 3]);
    assert_eq!(Shuffler::find_selectable_rooms(&exits(0, 0), &pool), Vec::<usize>::new());
}
