use katam_rando::csv_loader::{CsvLoader, DoorRecord, RecordError, RoomRecord};
use katam_rando::shuffler::ExitType;
use katam_rando::text::{chars_of, parse_number, split_words};

fn row(doorid: usize, destination: &str, exitaddr1: &str, exitaddr2: &str) -> DoorRecord {
    DoorRecord {
        doorid,
        destination: destination.to_string(),
        exitaddr1: exitaddr1.to_string(),
        exitaddr2: exitaddr2.to_string(),
        isoneway: true,
        linkeddoor: None,
    }
}

fn room_row(lists: [Option<&str>; 4]) -> RoomRecord {
    RoomRecord {
        roomid: 12,
        onewayentranceids: lists[0].map(|text| text.to_string()),
        twowayentranceids: lists[1].map(|text| text.to_string()),
        onewayexitids: lists[2].map(|text| text.to_string()),
        twowayexitids: lists[3].map(|text| text.to_string()),
    }
}

fn chars(text: &str) -> Vec<char> {
    text.chars().collect()
}

fn strings(found: Vec<Vec<char>>) -> Vec<String> {
    found.into_iter().map(|word| word.into_iter().collect()).collect()
}

#[test]
fn a_destination_is_four_hexadecimal_bytes() {
    let destination = row(7, "0a FF 00 7b", "0", "0").extract_destination().unwrap();
    assert_eq!(destination.id, 7);
    assert_eq!(destination.destination_bytes, [0x0A, 0xFF, 0x00, 0x7B]);
}

#[test]
fn a_destination_with_more_bytes_keeps_the_first_four() {
    let destination = row(7, "  1 2\t3 \n 4 5 6 ", "0", "0").extract_destination().unwrap();
    assert_eq!(destination.destination_bytes, [1, 2, 3, 4]);
}

#[test]
fn a_destination_with_fewer_bytes_or_bad_bytes_is_refused() {
    assert_eq!(row(7, "01 02 03", "0", "0").extract_destination(), Err(RecordError::BadDestination));
    assert_eq!(row(7, "", "0", "0").extract_destination(), Err(RecordError::BadDestination));
    assert_eq!(row(7, "01 02 03 0G", "0", "0").extract_destination(), Err(RecordError::BadDestination));
    assert_eq!(row(7, "01 02 03 100", "0", "0").extract_destination(), Err(RecordError::BadDestination));
    assert_eq!(row(7, "01 02 03 04 zz", "0", "0").extract_destination(), Err(RecordError::BadDestination));
    assert_eq!(row(7, "01 02 03 -4", "0", "0").extract_destination(), Err(RecordError::BadDestination));
}

#[test]
fn an_exit_has_two_hexadecimal_addresses() {
    let exit = row(9, "0 0 0 0", "873450", "930E04").extract_exit().unwrap();
    assert_eq!(exit.id, 9);
    assert_eq!(exit.exit_addr1, 0x873450);
    assert_eq!(exit.exit_addr2, 0x930E04);
    assert_eq!(exit.exit_type, ExitType::OneWay);
    assert_eq!(exit.linked_door_id, -1);
}

#[test]
fn a_two_way_exit_keeps_its_link() {
    let mut record = row(9, "0 0 0 0", "+1f", "0");
    record.isoneway = false;
    record.linkeddoor = Some(31);
    let exit = record.extract_exit().unwrap();
    assert_eq!(exit.exit_addr1, 0x1F);
    assert_eq!(exit.exit_type, ExitType::TwoWay);
    assert_eq!(exit.linked_door_id, 31);
}

#[test]
fn an_exit_with_a_bad_address_is_refused() {
    assert_eq!(row(9, "", "", "0").extract_exit(), Err(RecordError::BadExitAddress));
    assert_eq!(row(9, "", "12", "0x10").extract_exit(), Err(RecordError::BadExitAddress));
    assert_eq!(row(9, "", " 12", "10").extract_exit(), Err(RecordError::BadExitAddress));
    assert_eq!(row(9, "", "12", "+").extract_exit(), Err(RecordError::BadExitAddress));
    assert_eq!(
        row(9, "", "12", "FFFFFFFFFFFFFFFFFFFFFFFFFFFFFFFFF").extract_exit(),
        Err(RecordError::BadExitAddress)
    );
}

#[test]
fn a_door_is_a_destination_and_an_exit() {
    let door = row(3, "1 2 3 4", "10", "20").extract_door().unwrap();
    assert_eq!(door.0.id, 3);
    assert_eq!(door.0.destination_bytes, [1, 2, 3, 4]);
    assert_eq!(door.1.id, 3);
    assert_eq!(door.1.exit_addr1, 0x10);
    assert_eq!(row(3, "1 2 3", "10", "20").extract_door(), Err(RecordError::BadDestination));
    assert_eq!(row(3, "1 2 3 4", "1x", "20").extract_door(), Err(RecordError::BadExitAddress));
}

#[test]
fn a_door_table_is_laid_out_by_id() {
    let rows = vec![
        row(3, "1 2 3 4", "10", "20"),
        row(1, "5 6 7 8", "30", "40"),
        row(3, "9 9 9 9", "50", "60"),
    ];
    let table = CsvLoader.load_entrances(&rows);
    assert_eq!(table.len(), 4);
    assert!(table[0].is_none());
    assert!(table[2].is_none());
    assert_eq!(table[1].as_ref().unwrap().doorid, 1);
    assert_eq!(table[1].as_ref().unwrap().destination, "5 6 7 8");
    assert_eq!(table[3].as_ref().unwrap().doorid, 3);
    assert_eq!(table[3].as_ref().unwrap().destination, "9 9 9 9");
    assert_eq!(table[3].as_ref().unwrap().exitaddr2, "60");
    let single = CsvLoader.load_entrances(&[row(0, "1 2 3 4", "10", "20")]);
    assert_eq!(single.len(), 1);
    assert_eq!(single[0].as_ref().unwrap().doorid, 0);
}

#[test]
fn doors_are_read_place_by_place() {
    let table = CsvLoader.load_entrances(&[row(2, "1 2 3 4", "10", "20")]);
    let doors = CsvLoader.load_doors(&table).unwrap();
    assert_eq!(doors.len(), 3);
    assert!(doors[0].is_none() && doors[1].is_none());
    assert_eq!(doors[2].unwrap().1.exit_addr2, 0x20);
    let table = CsvLoader.load_entrances(&[row(0, "1 2 3 4", "10", "20"), row(1, "1 2", "10", "20")]);
    assert_eq!(CsvLoader.load_doors(&table), Err(RecordError::BadDestination));
}

#[test]
fn a_room_lists_its_doors_by_id() {
    let table = CsvLoader.load_entrances(&[
        row(1, "1 0 0 0", "11", "12"),
        row(2, "2 0 0 0", "21", "22"),
        row(4, "4 0 0 0", "41", "42"),
    ]);
    let record = room_row([Some("2 1"), None, Some(" 4 "), Some("")]);
    let room = CsvLoader.load_room(&record, &table).unwrap();
    assert_eq!(room.id, 12);
    assert_eq!(room.one_way_entrances.iter().map(|d| d.id).collect::<Vec<usize>>(), vec![2, 1]);
    assert_eq!(room.one_way_entrances[0].destination_bytes, [2, 0, 0, 0]);
    assert!(room.two_way_entrances.is_empty());
    assert_eq!(room.one_way_exits.len(), 1);
    assert_eq!(room.one_way_exits[0].exit_addr1, 0x41);
    assert!(room.two_way_exits.is_empty());
}

#[test]
fn a_room_with_a_bad_list_is_refused() {
    let table = CsvLoader.load_entrances(&[row(1, "1 0 0 0", "11", "12")]);
    assert_eq!(
        CsvLoader.load_room(&room_row([Some("1 x"), None, None, None]), &table).err(),
        Some(RecordError::BadDoorId)
    );
    assert_eq!(
        CsvLoader.load_room(&room_row([Some("7"), None, None, Some("-1")]), &table).err(),
        Some(RecordError::BadDoorId)
    );
    assert_eq!(
        CsvLoader.load_room(&room_row([None, None, Some("1.5"), None]), &table).err(),
        Some(RecordError::BadDoorId)
    );
}

#[test]
fn a_room_that_lists_an_unknown_door_is_refused() {
    let table = CsvLoader.load_entrances(&[row(2, "1 0 0 0", "11", "12")]);
    assert_eq!(
        CsvLoader.load_room(&room_row([Some("1"), None, None, None]), &table).err(),
        Some(RecordError::UnknownDoor)
    );
    assert_eq!(
        CsvLoader.load_room(&room_row([None, None, None, Some("3")]), &table).err(),
        Some(RecordError::UnknownDoor)
    );
}

#[test]
fn a_room_fails_as_its_first_bad_door_fails() {
    let table = CsvLoader.load_entrances(&[row(1, "1 0 0", "11", "12"), row(2, "1 0 0 0", "zz", "12")]);
    assert_eq!(
        CsvLoader.load_room(&room_row([Some("1"), None, Some("2"), None]), &table).err(),
        Some(RecordError::BadDestination)
    );
    assert_eq!(
        CsvLoader.load_room(&room_row([None, Some("2"), Some("2 9"), None]), &table).err(),
        Some(RecordError::BadExitAddress)
    );
}

#[test]
fn rooms_are_read_in_order() {
    let table = CsvLoader.load_entrances(&[row(1, "1 0 0 0", "11", "12")]);
    let mut second = room_row([Some("1"), None, None, None]);
    second.roomid = 13;
    let rooms = CsvLoader.load_rooms(&[room_row([None, None, Some("1"), None]), second], &table).unwrap();
    assert_eq!(rooms.iter().map(|room| room.id).collect::<Vec<usize>>(), vec![12, 13]);
    assert_eq!(rooms[0].one_way_exits[0].id, 1);
    assert_eq!(rooms[1].one_way_entrances[0].id, 1);
    let bad = CsvLoader.load_rooms(&[room_row([None; 4]), room_row([Some("5"), None, None, None])], &table);
    assert_eq!(bad.err(), Some(RecordError::UnknownDoor));
}

#[test]
fn words_are_split_at_white_space() {
    assert_eq!(strings(split_words(&chars("  ab  c\td\n"))), vec!["ab", "c", "d"]);
    assert_eq!(strings(split_words(&chars("abc"))), vec!["abc"]);
    assert_eq!(strings(split_words(&chars(" \u{a0}\u{2003}\u{3000} "))), Vec::<String>::new());
    assert_eq!(strings(split_words(&chars("a\u{85}b\u{200b}c"))), vec!["a", "b\u{200b}c"]);
    assert_eq!(strings(split_words(&chars(""))), Vec::<String>::new());
    assert_eq!(chars_of("h\u{e9}llo"), vec!['h', '\u{e9}', 'l', 'l', 'o']);
}

#[test]
fn words_are_split_as_the_standard_library_splits_them() {
    let texts = ["", " ", "a", " a", "a ", "1 2 3", "\t1\r\n2\u{b}3\u{c}", "x\u{1680}y\u{2028}z\u{2029}\u{202f}\u{205f}w"];
    for text in texts {
        let expected: Vec<String> = text.split_whitespace().map(|word| word.to_string()).collect();
        assert_eq!(strings(split_words(&chars(text))), expected);
    }
}

#[test]
fn numbers_are_parsed_in_their_radix() {
    assert_eq!(parse_number(&chars("ff"), 16, 255), Some(255));
    assert_eq!(parse_number(&chars("FF"), 16, 255), Some(255));
    assert_eq!(parse_number(&chars("100"), 16, 255), None);
    assert_eq!(parse_number(&chars("+7"), 10, 255), Some(7));
    assert_eq!(parse_number(&chars("007"), 10, 255), Some(7));
    assert_eq!(parse_number(&chars("7a"), 10, 255), None);
    assert_eq!(parse_number(&chars(""), 10, 255), None);
    assert_eq!(parse_number(&chars("+"), 10, 255), None);
    assert_eq!(parse_number(&chars("++1"), 10, 255), None);
    assert_eq!(parse_number(&chars("-1"), 10, 255), None);
    assert_eq!(parse_number(&chars("255"), 10, 255), Some(255));
    assert_eq!(parse_number(&chars("256"), 10, 255), None);
    assert_eq!(parse_number(&chars("2560"), 10, 255), None);
    assert_eq!(parse_number(&chars("18446744073709551615"), 10, usize::MAX), Some(usize::MAX));
    assert_eq!(parse_number(&chars("18446744073709551616"), 10, usize::MAX), None);
    assert_eq!(parse_number(&chars("z"), 36, 255), Some(35));
}
