//! The rows of the door table and of the room table, and what they say.

use vstd::prelude::*;
use crate::model::{Destination, Door, Exit, ExitType, Room, RoomView};
use crate::text::{chars_of, number_up_to, parse_number, split_words, word_views, words};

verus! {

/// Why a row could not be read.
#[derive(Copy, Clone, PartialEq, Eq, Debug, Structural)]
pub enum RecordError {
    /// The destination of a door is not four bytes or more, each written as
    /// a hexadecimal number.
    BadDestination,
    /// An address of a door is not a hexadecimal number.
    BadExitAddress,
    /// A room lists something that is not a door id.
    BadDoorId,
    /// A room lists the id of a door that the door table does not hold.
    UnknownDoor,
}

/// A row of the door table.
#[derive(Clone, Debug)]
pub struct DoorRecord {
    pub doorid: usize,
    pub destination: String,
    pub exitaddr1: String,
    pub exitaddr2: String,
    pub isoneway: bool,
    pub linkeddoor: Option<i32>,
}

/// A row of the door table as the specifications see it.
pub struct DoorRecordView {
    pub doorid: usize,
    pub destination: Seq<char>,
    pub exitaddr1: Seq<char>,
    pub exitaddr2: Seq<char>,
    pub isoneway: bool,
    pub linkeddoor: Option<i32>,
}

impl View for DoorRecord {
    type V = DoorRecordView;

    open spec fn view(&self) -> DoorRecordView {
        DoorRecordView {
            doorid: self.doorid,
            destination: self.destination@,
            exitaddr1: self.exitaddr1@,
            exitaddr2: self.exitaddr2@,
            isoneway: self.isoneway,
            linkeddoor: self.linkeddoor,
        }
    }
}

/// A row of the room table: the id of the room and four lists of door ids,
/// each written as decimal numbers with white space between them.
#[derive(Clone, Debug)]
pub struct RoomRecord {
    pub roomid: usize,
    pub onewayentranceids: Option<String>,
    pub twowayentranceids: Option<String>,
    pub onewayexitids: Option<String>,
    pub twowayexitids: Option<String>,
}

/// A row of the room table as the specifications see it.
pub struct RoomRecordView {
    pub roomid: usize,
    pub onewayentranceids: Option<Seq<char>>,
    pub twowayentranceids: Option<Seq<char>>,
    pub onewayexitids: Option<Seq<char>>,
    pub twowayexitids: Option<Seq<char>>,
}

/// A text that may be missing, as the specifications see it.
pub open spec fn text_view(text: Option<String>) -> Option<Seq<char>> {
    match text {
        Some(text) => Some(text@),
        None => None,
    }
}

impl View for RoomRecord {
    type V = RoomRecordView;

    open spec fn view(&self) -> RoomRecordView {
        RoomRecordView {
            roomid: self.roomid,
            onewayentranceids: text_view(self.onewayentranceids),
            twowayentranceids: text_view(self.twowayentranceids),
            onewayexitids: text_view(self.onewayexitids),
            twowayexitids: text_view(self.twowayexitids),
        }
    }
}

/// The bytes that words write as hexadecimal numbers, where each of them
/// writes one.
pub open spec fn hex_bytes(words: Seq<Seq<char>>) -> Option<Seq<u8>>
    decreases words.len(),
{
    if words.len() == 0 {
        Some(Seq::empty())
    } else {
        match (hex_bytes(words.drop_last()), number_up_to(words.last(), 16, 0xFF)) {
            (Some(bytes), Some(byte)) => Some(bytes.push(byte as u8)),
            _ => None,
        }
    }
}

/// The door ids that words write as decimal numbers, where each of them
/// writes one.
pub open spec fn ids_of_words(words: Seq<Seq<char>>) -> Result<Seq<usize>, RecordError>
    decreases words.len(),
{
    if words.len() == 0 {
        Ok(Seq::empty())
    } else {
        match (ids_of_words(words.drop_last()), number_up_to(words.last(), 10, usize::MAX as nat)) {
            (Ok(ids), Some(id)) => Ok(ids.push(id)),
            _ => Err(RecordError::BadDoorId),
        }
    }
}

/// The door ids of a list of a room's row. A missing list holds none.
pub open spec fn door_ids(list: Option<Seq<char>>) -> Result<Seq<usize>, RecordError> {
    match list {
        Some(text) => ids_of_words(words(text)),
        None => Ok(Seq::empty()),
    }
}

impl DoorRecordView {
    /// The destination that the row describes: the id of the door with the
    /// first four of the bytes that the row lists.
    pub open spec fn destination(self) -> Result<Destination, RecordError> {
        match hex_bytes(words(self.destination)) {
            Some(bytes) => if bytes.len() >= 4 {
                Ok(
                    Destination {
                        id: self.doorid,
                        destination_bytes: [bytes[0], bytes[1], bytes[2], bytes[3]],
                    },
                )
            } else {
                Err(RecordError::BadDestination)
            },
            None => Err(RecordError::BadDestination),
        }
    }

    /// The exit that the row describes.
    pub open spec fn exit(self) -> Result<Exit, RecordError> {
        match (
            number_up_to(self.exitaddr1, 16, usize::MAX as nat),
            number_up_to(self.exitaddr2, 16, usize::MAX as nat),
        ) {
            (Some(exit_addr1), Some(exit_addr2)) => Ok(
                Exit {
                    id: self.doorid,
                    exit_addr1,
                    exit_addr2,
                    exit_type: if self.isoneway {
                        ExitType::OneWay
                    } else {
                        ExitType::TwoWay
                    },
                    linked_door_id: match self.linkeddoor {
                        Some(doorid) => doorid,
                        None => -1i32,
                    },
                },
            ),
            _ => Err(RecordError::BadExitAddress),
        }
    }

    /// The door that the row describes: its destination and its exit.
    pub open spec fn door(self) -> Result<Door, RecordError> {
        match self.destination() {
            Ok(destination) => match self.exit() {
                Ok(exit) => Ok(Door(destination, exit)),
                Err(error) => Err(error),
            },
            Err(error) => Err(error),
        }
    }
}

/// The rows as the specifications see them.
pub open spec fn door_record_views(records: Seq<DoorRecord>) -> Seq<DoorRecordView> {
    Seq::new(records.len(), |i: int| records[i]@)
}

/// The rows as the specifications see them.
pub open spec fn room_record_views(records: Seq<RoomRecord>) -> Seq<RoomRecordView> {
    Seq::new(records.len(), |i: int| records[i]@)
}

/// A door table as the specifications see it.
pub open spec fn door_table_view(door_table: Seq<Option<DoorRecord>>) -> Seq<
    Option<DoorRecordView>,
> {
    Seq::new(
        door_table.len(),
        |i: int|
            match door_table[i] {
                Some(record) => Some(record@),
                None => None,
            },
    )
}

/// The length of the table of the first `count` rows: one more than the
/// largest id among them.
pub open spec fn table_len(records: Seq<DoorRecordView>, count: nat) -> nat
    decreases count,
{
    if count == 0 {
        0
    } else {
        let before = table_len(records, (count - 1) as nat);
        if records[count - 1].doorid + 1 > before {
            (records[count - 1].doorid + 1) as nat
        } else {
            before
        }
    }
}

/// The last of the first `count` rows that has the id.
pub open spec fn last_with_id(records: Seq<DoorRecordView>, count: nat, id: int) -> Option<
    DoorRecordView,
>
    decreases count,
{
    if count == 0 {
        None
    } else if records[count - 1].doorid == id {
        Some(records[count - 1])
    } else {
        last_with_id(records, (count - 1) as nat, id)
    }
}

/// The table of rows: at each place the last row with that id, or nothing
/// where there is none.
pub open spec fn table_of(records: Seq<DoorRecordView>) -> Seq<Option<DoorRecordView>> {
    Seq::new(table_len(records, records.len()), |id: int| last_with_id(records, records.len(), id))
}

/// The row at the place of an id, where the table holds one.
pub open spec fn record_at(door_table: Seq<Option<DoorRecordView>>, id: usize) -> Option<
    DoorRecordView,
> {
    if id < door_table.len() {
        door_table[id as int]
    } else {
        None
    }
}

/// The destination of the door with an id.
pub open spec fn destination_of_id(door_table: Seq<Option<DoorRecordView>>, id: usize) -> Result<
    Destination,
    RecordError,
> {
    match record_at(door_table, id) {
        Some(record) => record.destination(),
        None => Err(RecordError::UnknownDoor),
    }
}

/// The exit of the door with an id.
pub open spec fn exit_of_id(door_table: Seq<Option<DoorRecordView>>, id: usize) -> Result<
    Exit,
    RecordError,
> {
    match record_at(door_table, id) {
        Some(record) => record.exit(),
        None => Err(RecordError::UnknownDoor),
    }
}

/// The destinations of the doors with the ids, or the first failure.
pub open spec fn destinations_of_ids(
    door_table: Seq<Option<DoorRecordView>>,
    ids: Seq<usize>,
) -> Result<Seq<Destination>, RecordError>
    decreases ids.len(),
{
    if ids.len() == 0 {
        Ok(Seq::empty())
    } else {
        match destinations_of_ids(door_table, ids.drop_last()) {
            Err(error) => Err(error),
            Ok(destinations) => match destination_of_id(door_table, ids.last()) {
                Ok(destination) => Ok(destinations.push(destination)),
                Err(error) => Err(error),
            },
        }
    }
}

/// The exits of the doors with the ids, or the first failure.
pub open spec fn exits_of_ids(door_table: Seq<Option<DoorRecordView>>, ids: Seq<usize>) -> Result<
    Seq<Exit>,
    RecordError,
>
    decreases ids.len(),
{
    if ids.len() == 0 {
        Ok(Seq::empty())
    } else {
        match exits_of_ids(door_table, ids.drop_last()) {
            Err(error) => Err(error),
            Ok(exits) => match exit_of_id(door_table, ids.last()) {
                Ok(exit) => Ok(exits.push(exit)),
                Err(error) => Err(error),
            },
        }
    }
}

/// The four lists of door ids of a room's row.
pub struct RoomDoorIds {
    pub one_way_entrances: Seq<usize>,
    pub two_way_entrances: Seq<usize>,
    pub one_way_exits: Seq<usize>,
    pub two_way_exits: Seq<usize>,
}

impl RoomRecordView {
    /// The four lists of door ids, or the failure of the first list that
    /// cannot be read.
    pub open spec fn door_ids(self) -> Result<RoomDoorIds, RecordError> {
        match (
            door_ids(self.onewayentranceids),
            door_ids(self.twowayentranceids),
            door_ids(self.onewayexitids),
            door_ids(self.twowayexitids),
        ) {
            (Ok(one_way_entrances), Ok(two_way_entrances), Ok(one_way_exits), Ok(two_way_exits)) => Ok(
                RoomDoorIds { one_way_entrances, two_way_entrances, one_way_exits, two_way_exits },
            ),
            _ => Err(RecordError::BadDoorId),
        }
    }

    /// The room that the row describes: the lists of ids are read first,
    /// then the doors are looked up list by list, and the first failure is
    /// the failure of the row.
    pub open spec fn room(self, door_table: Seq<Option<DoorRecordView>>) -> Result<
        RoomView,
        RecordError,
    > {
        match self.door_ids() {
            Err(error) => Err(error),
            Ok(ids) => match destinations_of_ids(door_table, ids.one_way_entrances) {
                Err(error) => Err(error),
                Ok(one_way_entrances) => match destinations_of_ids(
                    door_table,
                    ids.two_way_entrances,
                ) {
                    Err(error) => Err(error),
                    Ok(two_way_entrances) => match exits_of_ids(door_table, ids.one_way_exits) {
                        Err(error) => Err(error),
                        Ok(one_way_exits) => match exits_of_ids(door_table, ids.two_way_exits) {
                            Err(error) => Err(error),
                            Ok(two_way_exits) => Ok(
                                RoomView {
                                    id: self.roomid,
                                    one_way_entrances,
                                    two_way_entrances,
                                    one_way_exits,
                                    two_way_exits,
                                },
                            ),
                        },
                    },
                },
            },
        }
    }
}

/// The rooms that the first `count` rows describe, or the first failure.
pub open spec fn rooms_of(
    records: Seq<RoomRecordView>,
    door_table: Seq<Option<DoorRecordView>>,
    count: nat,
) -> Result<Seq<RoomView>, RecordError>
    decreases count,
{
    if count == 0 {
        Ok(Seq::empty())
    } else {
        match rooms_of(records, door_table, (count - 1) as nat) {
            Err(error) => Err(error),
            Ok(rooms) => match records[count - 1].room(door_table) {
                Ok(room) => Ok(rooms.push(room)),
                Err(error) => Err(error),
            },
        }
    }
}

/// The doors that the first `count` places of a table describe, place by
/// place, or the first failure.
pub open spec fn doors_of(door_table: Seq<Option<DoorRecordView>>, count: nat) -> Result<
    Seq<Option<Door>>,
    RecordError,
>
    decreases count,
{
    if count == 0 {
        Ok(Seq::empty())
    } else {
        match doors_of(door_table, (count - 1) as nat) {
            Err(error) => Err(error),
            Ok(doors) => match door_table[count - 1] {
                None => Ok(doors.push(None)),
                Some(record) => match record.door() {
                    Ok(door) => Ok(doors.push(Some(door))),
                    Err(error) => Err(error),
                },
            },
        }
    }
}

/// A failure among the first rows is the failure of all the rows.
pub proof fn lemma_rooms_failure_stays(
    records: Seq<RoomRecordView>,
    door_table: Seq<Option<DoorRecordView>>,
    count: nat,
    more: nat,
)
    requires
        rooms_of(records, door_table, count) is Err,
        count <= more,
    ensures
        rooms_of(records, door_table, more) == rooms_of(records, door_table, count),
    decreases more,
{
    if count < more {
        lemma_rooms_failure_stays(records, door_table, count, (more - 1) as nat);
    }
}

/// A failure among the first places is the failure of the whole table.
pub proof fn lemma_doors_failure_stays(
    door_table: Seq<Option<DoorRecordView>>,
    count: nat,
    more: nat,
)
    requires
        doors_of(door_table, count) is Err,
        count <= more,
    ensures
        doors_of(door_table, more) == doors_of(door_table, count),
    decreases more,
{
    if count < more {
        lemma_doors_failure_stays(door_table, count, (more - 1) as nat);
    }
}

proof fn lemma_ids_failure_stays(words: Seq<Seq<char>>, count: int)
    requires
        0 <= count <= words.len(),
        ids_of_words(words.take(count)) is Err,
    ensures
        ids_of_words(words) is Err,
    decreases words.len(),
{
    if count < words.len() {
        assert(words.drop_last().take(count) =~= words.take(count));
        lemma_ids_failure_stays(words.drop_last(), count);
    } else {
        assert(words.take(count) =~= words);
    }
}

proof fn lemma_bytes_failure_stays(words: Seq<Seq<char>>, count: int)
    requires
        0 <= count <= words.len(),
        hex_bytes(words.take(count)) is None,
    ensures
        hex_bytes(words) is None,
    decreases words.len(),
{
    if count < words.len() {
        assert(words.drop_last().take(count) =~= words.take(count));
        lemma_bytes_failure_stays(words.drop_last(), count);
    } else {
        assert(words.take(count) =~= words);
    }
}

proof fn lemma_destinations_failure_stays(
    door_table: Seq<Option<DoorRecordView>>,
    ids: Seq<usize>,
    count: int,
)
    requires
        0 <= count <= ids.len(),
        destinations_of_ids(door_table, ids.take(count)) is Err,
    ensures
        destinations_of_ids(door_table, ids) == destinations_of_ids(door_table, ids.take(count)),
    decreases ids.len(),
{
    if count < ids.len() {
        assert(ids.drop_last().take(count) =~= ids.take(count));
        lemma_destinations_failure_stays(door_table, ids.drop_last(), count);
    } else {
        assert(ids.take(count) =~= ids);
    }
}

proof fn lemma_exits_failure_stays(
    door_table: Seq<Option<DoorRecordView>>,
    ids: Seq<usize>,
    count: int,
)
    requires
        0 <= count <= ids.len(),
        exits_of_ids(door_table, ids.take(count)) is Err,
    ensures
        exits_of_ids(door_table, ids) == exits_of_ids(door_table, ids.take(count)),
    decreases ids.len(),
{
    if count < ids.len() {
        assert(ids.drop_last().take(count) =~= ids.take(count));
        lemma_exits_failure_stays(door_table, ids.drop_last(), count);
    } else {
        assert(ids.take(count) =~= ids);
    }
}

impl DoorRecord {
    /// A row with the same fields.
    pub fn duplicate(&self) -> (record: DoorRecord)
        ensures
            record@ == self@,
    {
        DoorRecord {
            doorid: self.doorid,
            destination: self.destination.clone(),
            exitaddr1: self.exitaddr1.clone(),
            exitaddr2: self.exitaddr2.clone(),
            isoneway: self.isoneway,
            linkeddoor: self.linkeddoor,
        }
    }

    /// Reads the destination that the row describes. The row must list four
    /// bytes or more, each as a hexadecimal number of at most two hundred and
    /// fifty-five, with white space between them; the first four are taken.
    pub fn extract_destination(&self) -> (r: Result<Destination, RecordError>)
        ensures
            r == self@.destination(),
    {
        let chars = chars_of(self.destination.as_str());
        let found = split_words(chars.as_slice());
        let ghost all = words(self.destination@);
        let mut bytes: Vec<u8> = Vec::new();
        let mut i: usize = 0;
        while i < found.len()
            invariant
                i <= found@.len(),
                all == word_views(found@),
                all == words(self.destination@),
                hex_bytes(all.take(i as int)) == Some(bytes@),
            decreases found@.len() - i,
        {
            assert(all.take(i + 1).drop_last() =~= all.take(i as int));
            assert(all.take(i + 1).last() == found@[i as int]@);
            match parse_number(found[i].as_slice(), 16, 0xFF) {
                Some(byte) => {
                    bytes.push(byte as u8);
                },
                None => {
                    proof {
                        lemma_bytes_failure_stays(all, i + 1);
                    }
                    return Err(RecordError::BadDestination);
                },
            }
            i += 1;
        }
        assert(all.take(all.len() as int) =~= all);
        if bytes.len() < 4 {
            return Err(RecordError::BadDestination);
        }
        Ok(Destination::new(self.doorid, [bytes[0], bytes[1], bytes[2], bytes[3]]))
    }

    /// Reads the exit that the row describes. Both addresses must be
    /// hexadecimal numbers that a machine word holds.
    pub fn extract_exit(&self) -> (r: Result<Exit, RecordError>)
        ensures
            r == self@.exit(),
    {
        let first = chars_of(self.exitaddr1.as_str());
        let second = chars_of(self.exitaddr2.as_str());
        let exit_addr_1 = match parse_number(first.as_slice(), 16, usize::MAX) {
            Some(address) => address,
            None => {
                return Err(RecordError::BadExitAddress);
            },
        };
        let exit_addr_2 = match parse_number(second.as_slice(), 16, usize::MAX) {
            Some(address) => address,
            None => {
                return Err(RecordError::BadExitAddress);
            },
        };
        let exit_type = if self.isoneway {
            ExitType::OneWay
        } else {
            ExitType::TwoWay
        };
        let linked_door = match self.linkeddoor {
            Some(doorid) => doorid,
            None => -1,
        };
        Ok(Exit::new(self.doorid, exit_addr_1, exit_addr_2, exit_type, linked_door))
    }

    /// Reads the door that the row describes: its destination and its exit.
    pub fn extract_door(&self) -> (r: Result<Door, RecordError>)
        ensures
            r == self@.door(),
    {
        match self.extract_destination() {
            Ok(destination) => match self.extract_exit() {
                Ok(exit) => Ok(Door(destination, exit)),
                Err(error) => Err(error),
            },
            Err(error) => Err(error),
        }
    }
}

/// Builds the typed tables that the shuffler works on from the rows of the
/// door table and of the room table.
pub struct CsvLoader;

/// The result of reading rooms as the specifications see it.
pub open spec fn rooms_view(result: Result<Vec<Room>, RecordError>) -> Result<
    Seq<RoomView>,
    RecordError,
> {
    match result {
        Ok(rooms) => Ok(crate::model::room_views(rooms@)),
        Err(error) => Err(error),
    }
}

/// The result of reading one room as the specifications see it.
pub open spec fn room_view(result: Result<Room, RecordError>) -> Result<RoomView, RecordError> {
    match result {
        Ok(room) => Ok(room@),
        Err(error) => Err(error),
    }
}

/// The result of reading a list as the specifications see it.
pub open spec fn list_view<T>(result: Result<Vec<T>, RecordError>) -> Result<Seq<T>, RecordError> {
    match result {
        Ok(items) => Ok(items@),
        Err(error) => Err(error),
    }
}

impl CsvLoader {
    /// Lays the rows of the door table out by id: the table is one longer
    /// than the largest id, each row stands at the place of its id, and the
    /// places of ids that no row has are empty. Of rows with the same id
    /// the last one stands. There must be a row, and the largest id must
    /// leave room for a table that is one longer.
    pub fn load_entrances(&self, records: &[DoorRecord]) -> (door_table: Vec<Option<DoorRecord>>)
        requires
            records@.len() > 0,
            forall|i: int| 0 <= i < records@.len() ==> (#[trigger] records@[i]).doorid < usize::MAX,
        ensures
            door_table_view(door_table@) == table_of(door_record_views(records@)),
    {
        let ghost rows = door_record_views(records@);
        let mut len: usize = 0;
        let mut i: usize = 0;
        while i < records.len()
            invariant
                i <= records@.len(),
                rows == door_record_views(records@),
                forall|i: int|
                    0 <= i < records@.len() ==> (#[trigger] records@[i]).doorid < usize::MAX,
                len == table_len(rows, i as nat),
            decreases records@.len() - i,
        {
            assert(rows[i as int] == records@[i as int]@);
            if records[i].doorid + 1 > len {
                len = records[i].doorid + 1;
            }
            i += 1;
        }
        let mut door_table: Vec<Option<DoorRecord>> = Vec::new();
        let mut place: usize = 0;
        while place < len
            invariant
                place <= len,
                door_table@.len() == place,
                forall|id: int| 0 <= id < place ==> (#[trigger] door_table@[id]) is None,
            decreases len - place,
        {
            door_table.push(None);
            place += 1;
        }
        let mut i: usize = 0;
        while i < records.len()
            invariant
                i <= records@.len(),
                rows == door_record_views(records@),
                len == table_len(rows, records@.len()),
                door_table@.len() == len,
                forall|id: int|
                    0 <= id < len ==> (#[trigger] door_table_view(door_table@)[id]) == last_with_id(
                        rows,
                        i as nat,
                        id,
                    ),
            decreases records@.len() - i,
        {
            assert(rows[i as int] == records@[i as int]@);
            proof {
                lemma_table_holds_ids(rows, records@.len(), i as int);
            }
            let ghost before = door_table@;
            let record = records[i].duplicate();
            door_table.set(records[i].doorid, Some(record));
            assert forall|id: int| 0 <= id < len implies (#[trigger] door_table_view(
                door_table@,
            )[id]) == last_with_id(rows, (i + 1) as nat, id) by {
                if id != records@[i as int].doorid {
                    assert(door_table@[id] == before[id]);
                    assert(door_table_view(before)[id] == last_with_id(rows, i as nat, id));
                }
            }
            i += 1;
        }
        assert(door_table_view(door_table@) =~= table_of(rows));
        door_table
    }

    /// Reads the door of every place of a door table that holds a row.
    pub fn load_doors(&self, door_table: &[Option<DoorRecord>]) -> (r: Result<
        Vec<Option<Door>>,
        RecordError,
    >)
        ensures
            list_view(r) == doors_of(door_table_view(door_table@), door_table@.len()),
    {
        let ghost table = door_table_view(door_table@);
        let mut doors: Vec<Option<Door>> = Vec::new();
        let mut place: usize = 0;
        while place < door_table.len()
            invariant
                place <= door_table@.len(),
                table == door_table_view(door_table@),
                doors_of(table, place as nat) == Ok::<Seq<Option<Door>>, RecordError>(doors@),
            decreases door_table@.len() - place,
        {
            match &door_table[place] {
                None => {
                    assert(table[place as int] is None);
                    doors.push(None);
                },
                Some(record) => {
                    assert(table[place as int] == Some(record@));
                    match record.extract_door() {
                        Ok(door) => {
                            doors.push(Some(door));
                        },
                        Err(error) => {
                            proof {
                                lemma_doors_failure_stays(
                                    table,
                                    place as nat + 1,
                                    door_table@.len(),
                                );
                            }
                            return Err(error);
                        },
                    }
                },
            }
            place += 1;
        }
        Ok(doors)
    }

    fn read_ids(list: &Option<String>) -> (r: Result<Vec<usize>, RecordError>)
        ensures
            list_view(r) == door_ids(text_view(*list)),
    {
        let mut ids: Vec<usize> = Vec::new();
        match list {
            None => Ok(ids),
            Some(text) => {
                let chars = chars_of(text.as_str());
                let found = split_words(chars.as_slice());
                let ghost all = words(text@);
                let mut i: usize = 0;
                while i < found.len()
                    invariant
                        i <= found@.len(),
                        all == word_views(found@),
                        all == words(text@),
                        *list == Some(*text),
                        ids_of_words(all.take(i as int)) == Ok::<Seq<usize>, RecordError>(ids@),
                    decreases found@.len() - i,
                {
                    assert(all.take(i + 1).drop_last() =~= all.take(i as int));
                    assert(all.take(i + 1).last() == found@[i as int]@);
                    match parse_number(found[i].as_slice(), 10, usize::MAX) {
                        Some(id) => {
                            ids.push(id);
                        },
                        None => {
                            proof {
                                lemma_ids_failure_stays(all, i + 1);
                            }
                            return Err(RecordError::BadDoorId);
                        },
                    }
                    i += 1;
                }
                assert(all.take(all.len() as int) =~= all);
                Ok(ids)
            },
        }
    }

    fn record_of<'a>(door_table: &'a [Option<DoorRecord>], id: usize) -> (record: Option<
        &'a DoorRecord,
    >)
        ensures
            match record {
                Some(record) => record_at(door_table_view(door_table@), id) == Some(record@),
                None => record_at(door_table_view(door_table@), id) is None,
            },
    {
        if id < door_table.len() {
            match &door_table[id] {
                Some(record) => Some(record),
                None => None,
            }
        } else {
            None
        }
    }

    fn read_destinations(door_table: &[Option<DoorRecord>], ids: &Vec<usize>) -> (r: Result<
        Vec<Destination>,
        RecordError,
    >)
        ensures
            list_view(r) == destinations_of_ids(door_table_view(door_table@), ids@),
    {
        let ghost table = door_table_view(door_table@);
        let mut destinations: Vec<Destination> = Vec::new();
        let mut i: usize = 0;
        while i < ids.len()
            invariant
                i <= ids@.len(),
                table == door_table_view(door_table@),
                destinations_of_ids(table, ids@.take(i as int)) == Ok::<
                    Seq<Destination>,
                    RecordError,
                >(destinations@),
            decreases ids@.len() - i,
        {
            assert(ids@.take(i + 1).drop_last() =~= ids@.take(i as int));
            let read = match Self::record_of(door_table, ids[i]) {
                Some(record) => record.extract_destination(),
                None => Err(RecordError::UnknownDoor),
            };
            match read {
                Ok(destination) => {
                    destinations.push(destination);
                },
                Err(error) => {
                    proof {
                        lemma_destinations_failure_stays(table, ids@, i + 1);
                    }
                    return Err(error);
                },
            }
            i += 1;
        }
        assert(ids@.take(ids@.len() as int) =~= ids@);
        Ok(destinations)
    }

    fn read_exits(door_table: &[Option<DoorRecord>], ids: &Vec<usize>) -> (r: Result<
        Vec<Exit>,
        RecordError,
    >)
        ensures
            list_view(r) == exits_of_ids(door_table_view(door_table@), ids@),
    {
        let ghost table = door_table_view(door_table@);
        let mut exits: Vec<Exit> = Vec::new();
        let mut i: usize = 0;
        while i < ids.len()
            invariant
                i <= ids@.len(),
                table == door_table_view(door_table@),
                exits_of_ids(table, ids@.take(i as int)) == Ok::<Seq<Exit>, RecordError>(exits@),
            decreases ids@.len() - i,
        {
            assert(ids@.take(i + 1).drop_last() =~= ids@.take(i as int));
            let read = match Self::record_of(door_table, ids[i]) {
                Some(record) => record.extract_exit(),
                None => Err(RecordError::UnknownDoor),
            };
            match read {
                Ok(exit) => {
                    exits.push(exit);
                },
                Err(error) => {
                    proof {
                        lemma_exits_failure_stays(table, ids@, i + 1);
                    }
                    return Err(error);
                },
            }
            i += 1;
        }
        assert(ids@.take(ids@.len() as int) =~= ids@);
        Ok(exits)
    }

    /// Reads the room that a row of the room table describes: its four
    /// lists of door ids, and for each id the destination or the exit of the
    /// door that the door table holds at that place.
    pub fn load_room(&self, record: &RoomRecord, door_table: &[Option<DoorRecord>]) -> (r: Result<
        Room,
        RecordError,
    >)
        ensures
            room_view(r) == record@.room(door_table_view(door_table@)),
    {
        let one_way_entrance_ids = Self::read_ids(&record.onewayentranceids);
        let two_way_entrance_ids = Self::read_ids(&record.twowayentranceids);
        let one_way_exit_ids = Self::read_ids(&record.onewayexitids);
        let two_way_exit_ids = Self::read_ids(&record.twowayexitids);
        let (one_way_entrance_ids, two_way_entrance_ids, one_way_exit_ids, two_way_exit_ids) = match (
            one_way_entrance_ids,
            two_way_entrance_ids,
            one_way_exit_ids,
            two_way_exit_ids,
        ) {
            (Ok(a), Ok(b), Ok(c), Ok(d)) => (a, b, c, d),
            _ => {
                return Err(RecordError::BadDoorId);
            },
        };
        let one_way_entrances = match Self::read_destinations(door_table, &one_way_entrance_ids) {
            Ok(destinations) => destinations,
            Err(error) => {
                return Err(error);
            },
        };
        let two_way_entrances = match Self::read_destinations(door_table, &two_way_entrance_ids) {
            Ok(destinations) => destinations,
            Err(error) => {
                return Err(error);
            },
        };
        let one_way_exits = match Self::read_exits(door_table, &one_way_exit_ids) {
            Ok(exits) => exits,
            Err(error) => {
                return Err(error);
            },
        };
        let two_way_exits = match Self::read_exits(door_table, &two_way_exit_ids) {
            Ok(exits) => exits,
            Err(error) => {
                return Err(error);
            },
        };
        Ok(
            Room {
                id: record.roomid,
                one_way_entrances,
                two_way_entrances,
                one_way_exits,
                two_way_exits,
            },
        )
    }

    /// Reads the rooms that the rows of the room table describe, in order,
    /// or fails as the first row fails that cannot be read.
    pub fn load_rooms(&self, records: &[RoomRecord], door_table: &[Option<DoorRecord>]) -> (r: Result<
        Vec<Room>,
        RecordError,
    >)
        ensures
            rooms_view(r) == rooms_of(
                room_record_views(records@),
                door_table_view(door_table@),
                records@.len(),
            ),
    {
        let ghost rows = room_record_views(records@);
        let ghost table = door_table_view(door_table@);
        let mut rooms: Vec<Room> = Vec::new();
        let mut i: usize = 0;
        assert(crate::model::room_views(rooms@) =~= Seq::<RoomView>::empty());
        while i < records.len()
            invariant
                i <= records@.len(),
                rows == room_record_views(records@),
                table == door_table_view(door_table@),
                rooms_of(rows, table, i as nat) == Ok::<Seq<RoomView>, RecordError>(
                    crate::model::room_views(rooms@),
                ),
            decreases records@.len() - i,
        {
            assert(rows[i as int] == records@[i as int]@);
            match self.load_room(&records[i], door_table) {
                Ok(room) => {
                    let ghost before = crate::model::room_views(rooms@);
                    let ghost added = room@;
                    rooms.push(room);
                    assert(crate::model::room_views(rooms@) =~= before.push(added));
                },
                Err(error) => {
                    proof {
                        lemma_rooms_failure_stays(rows, table, i as nat + 1, records@.len());
                    }
                    return Err(error);
                },
            }
            i += 1;
        }
        Ok(rooms)
    }
}

/// The table of rows is long enough for the id of each row.
pub proof fn lemma_table_holds_ids(records: Seq<DoorRecordView>, count: nat, at: int)
    requires
        0 <= at < count,
    ensures
        records[at].doorid < table_len(records, count),
    decreases count,
{
    if at < count - 1 {
        lemma_table_holds_ids(records, (count - 1) as nat, at);
    }
}

} // verus!
