//! Building the connectivity index from the doors of the unshuffled map.

use vstd::prelude::*;
use crate::bimap::{
    destination_exit_pairs, destination_paired_with, door_link_pairs, exit_paired_with,
    first_place, has_destination, has_exit, has_left, has_right, insert_destination_exit,
    insert_door_link, inserted, new_destination_exit_map, new_door_link_map, partner_of_left,
    partner_of_right, same_door,
};
use crate::model::{Destination, Door, Exit, ExitType};
use crate::shuffler::Shuffler;

verus! {

/// Why no index could be built from a table of doors.
#[derive(Copy, Clone, PartialEq, Eq, Debug, Structural)]
pub enum IndexError {
    /// The table holds no door at the place that a two-way door names as its
    /// link.
    UnresolvedLink,
}

/// What an index holds: the destination and exit of every door, and the
/// linked pairs of two-way doors.
#[verifier::ext_equal]
pub struct IndexContents {
    pub destination_exits: Seq<(Destination, Exit)>,
    pub links: Seq<(Door, Door)>,
}

/// The door at the place that a link names, where the table holds one.
pub open spec fn linked(door_table: Seq<Option<Door>>, linked_door_id: i32) -> Option<Door> {
    if 0 <= linked_door_id < door_table.len() {
        door_table[linked_door_id as int]
    } else {
        None
    }
}

/// The contents after one more door: its destination and exit are paired,
/// and a two-way door is linked to the door at the place it names. A pair
/// or a link with a side that is in the index already takes the place of the
/// first that has that side.
pub open spec fn with_door(
    door_table: Seq<Option<Door>>,
    contents: IndexContents,
    door: Door,
) -> Result<IndexContents, IndexError> {
    let destination_exits = inserted(
        contents.destination_exits,
        (door.0, door.1),
        has_destination(door.0),
        has_exit(door.1),
    );
    if door.1.exit_type == ExitType::OneWay {
        Ok(IndexContents { destination_exits, links: contents.links })
    } else {
        match linked(door_table, door.1.linked_door_id) {
            None => Err(IndexError::UnresolvedLink),
            Some(partner) => Ok(
                IndexContents {
                    destination_exits,
                    links: inserted(
                        contents.links,
                        (door, partner),
                        has_left(door),
                        has_right(partner),
                    ),
                },
            ),
        }
    }
}

/// The contents of the index of the first `count` places of a table, or the
/// first failure among them.
pub open spec fn indexed(door_table: Seq<Option<Door>>, count: nat) -> Result<
    IndexContents,
    IndexError,
>
    decreases count,
{
    if count == 0 {
        Ok(IndexContents { destination_exits: Seq::empty(), links: Seq::empty() })
    } else {
        match indexed(door_table, (count - 1) as nat) {
            Err(error) => Err(error),
            Ok(contents) => match door_table[count - 1] {
                None => Ok(contents),
                Some(door) => with_door(door_table, contents, door),
            },
        }
    }
}

/// Whether a door has a side that the contents hold already.
pub open spec fn clashes(door_table: Seq<Option<Door>>, contents: IndexContents, door: Door) -> bool {
    ||| exit_paired_with(contents.destination_exits, door.0) is Some
    ||| destination_paired_with(contents.destination_exits, door.1) is Some
    ||| door.1.exit_type == ExitType::TwoWay && partner_of_left(contents.links, door) is Some
    ||| door.1.exit_type == ExitType::TwoWay && linked(door_table, door.1.linked_door_id) is Some
        && partner_of_right(
        contents.links,
        linked(door_table, door.1.linked_door_id)->Some_0,
    ) is Some
}

/// Whether none of the first `count` places of a table holds a door with a
/// side that the index of the places before it holds already: no
/// destination and no exit comes twice, no two-way door is linked twice, and
/// no door is named as a link twice.
pub open spec fn clash_free(door_table: Seq<Option<Door>>, count: nat) -> bool
    decreases count,
{
    count == 0 || (clash_free(door_table, (count - 1) as nat) && match (
        indexed(door_table, (count - 1) as nat),
        door_table[count - 1],
    ) {
        (Ok(contents), Some(door)) => !clashes(door_table, contents, door),
        _ => true,
    })
}

impl Shuffler {
    /// What the index holds.
    pub open spec fn contents(&self) -> IndexContents {
        IndexContents { destination_exits: self.destination_exits(), links: self.links() }
    }

    /// Builds the index of a table of doors, in which a door's place is its
    /// id and a place may be empty. The doors are taken in order. Each door's
    /// destination and exit are paired; each two-way door is linked to the
    /// door at the place that its exit names. Building fails when a two-way
    /// door names no door of the table.
    pub fn from_door_table(door_table: &[Option<Door>]) -> (r: Result<Shuffler, IndexError>)
        ensures
            match r {
                Ok(shuffler) => indexed(door_table@, door_table@.len()) == Ok::<
                    IndexContents,
                    IndexError,
                >(shuffler.contents()),
                Err(error) => indexed(door_table@, door_table@.len()) == Err::<
                    IndexContents,
                    IndexError,
                >(error),
            },
    {
        let mut destination_exit_map = new_destination_exit_map();
        let mut links = new_door_link_map();
        let mut place: usize = 0;
        while place < door_table.len()
            invariant
                place <= door_table@.len(),
                indexed(door_table@, place as nat) == Ok::<IndexContents, IndexError>(
                    IndexContents {
                        destination_exits: destination_exit_pairs(destination_exit_map),
                        links: door_link_pairs(links),
                    },
                ),
            decreases door_table@.len() - place,
        {
            match door_table[place] {
                None => {},
                Some(door) => {
                    let Door(destination, exit) = door;
                    if exit.exit_type == ExitType::TwoWay {
                        let partner = match Self::door_at(door_table, exit.linked_door_id) {
                            Some(partner) => partner,
                            None => {
                                proof {
                                    lemma_failure_stays(
                                        door_table@,
                                        place as nat + 1,
                                        door_table@.len(),
                                    );
                                }
                                return Err(IndexError::UnresolvedLink);
                            },
                        };
                        insert_door_link(&mut links, door, partner);
                    }
                    insert_destination_exit(&mut destination_exit_map, destination, exit);
                },
            }
            place += 1;
        }
        Ok(Shuffler::new(destination_exit_map, links))
    }

    fn door_at(door_table: &[Option<Door>], linked_door_id: i32) -> (door: Option<Door>)
        ensures
            door == linked(door_table@, linked_door_id),
    {
        if linked_door_id < 0 {
            return None;
        }
        let place = linked_door_id as usize;
        if place < door_table.len() {
            door_table[place]
        } else {
            None
        }
    }
}

/// Where the first item that passes a test stands: there the test is passed
/// and before it is not; where none stands, no item passes.
pub proof fn lemma_first_place<A>(items: Seq<A>, hit: spec_fn(A) -> bool)
    ensures
        match first_place(items, hit) {
            Some(place) => 0 <= place < items.len() && hit(items[place]) && forall|j: int|
                0 <= j < place ==> !hit(#[trigger] items[j]),
            None => forall|j: int| 0 <= j < items.len() ==> !hit(#[trigger] items[j]),
        },
    decreases items.len(),
{
    if items.len() > 0 {
        let front = items.drop_last();
        lemma_first_place(front, hit);
        assert forall|j: int| 0 <= j < front.len() implies front[j] == items[j] by {}
        match first_place(front, hit) {
            Some(place) => {
                assert(front[place] == items[place]);
                assert forall|j: int| 0 <= j < place implies !hit(#[trigger] items[j]) by {
                    assert(front[j] == items[j]);
                }
            },
            None => {
                assert forall|j: int| 0 <= j < items.len() - 1 implies !hit(
                    #[trigger] items[j],
                ) by {
                    assert(front[j] == items[j]);
                }
            },
        }
    }
}

/// An item added at the end is the first to pass a test only where no item
/// before it passes.
pub proof fn lemma_first_place_push<A>(items: Seq<A>, item: A, hit: spec_fn(A) -> bool)
    ensures
        first_place(items.push(item), hit) == match first_place(items, hit) {
            Some(place) => Some(place),
            None => if hit(item) {
                Some(items.len() as int)
            } else {
                None
            },
        },
{
    assert(items.push(item).drop_last() =~= items);
}

/// A failure among the first places of a table is the failure of the whole
/// table.
pub proof fn lemma_failure_stays(door_table: Seq<Option<Door>>, count: nat, more: nat)
    requires
        indexed(door_table, count) is Err,
        count <= more,
    ensures
        indexed(door_table, more) == indexed(door_table, count),
    decreases more,
{
    if count < more {
        lemma_failure_stays(door_table, count, (more - 1) as nat);
    }
}

/// A pair added at the end answers for a destination only where no pair
/// before it does.
pub proof fn lemma_exit_paired_with_push(
    pairs: Seq<(Destination, Exit)>,
    pair: (Destination, Exit),
    destination: Destination,
)
    ensures
        exit_paired_with(pairs.push(pair), destination) == match exit_paired_with(
            pairs,
            destination,
        ) {
            Some(exit) => Some(exit),
            None => if pair.0.id == destination.id {
                Some(pair.1)
            } else {
                None
            },
        },
{
    lemma_first_place_push(pairs, pair, has_destination(destination));
    lemma_first_place(pairs, has_destination(destination));
}

/// A pair added at the end answers for an exit only where no pair before it
/// does.
pub proof fn lemma_destination_paired_with_push(
    pairs: Seq<(Destination, Exit)>,
    pair: (Destination, Exit),
    exit: Exit,
)
    ensures
        destination_paired_with(pairs.push(pair), exit) == match destination_paired_with(
            pairs,
            exit,
        ) {
            Some(destination) => Some(destination),
            None => if pair.1.id == exit.id {
                Some(pair.0)
            } else {
                None
            },
        },
{
    lemma_first_place_push(pairs, pair, has_exit(exit));
    lemma_first_place(pairs, has_exit(exit));
}

/// A link added at the end answers for a left-hand door only where no link
/// before it does.
pub proof fn lemma_partner_of_left_push(pairs: Seq<(Door, Door)>, pair: (Door, Door), door: Door)
    ensures
        partner_of_left(pairs.push(pair), door) == match partner_of_left(pairs, door) {
            Some(partner) => Some(partner),
            None => if same_door(pair.0, door) {
                Some(pair.1)
            } else {
                None
            },
        },
{
    lemma_first_place_push(pairs, pair, has_left(door));
    lemma_first_place(pairs, has_left(door));
}

/// Destinations with the same id are paired with the same exit.
pub proof fn lemma_exit_paired_with_by_id(
    pairs: Seq<(Destination, Exit)>,
    a: Destination,
    b: Destination,
)
    requires
        a.id == b.id,
    ensures
        exit_paired_with(pairs, a) == exit_paired_with(pairs, b),
{
    assert(has_destination(a) =~= has_destination(b));
}

/// Doors with the same ids have the same partner.
pub proof fn lemma_partner_of_left_by_id(pairs: Seq<(Door, Door)>, a: Door, b: Door)
    requires
        same_door(a, b),
    ensures
        partner_of_left(pairs, a) == partner_of_left(pairs, b),
{
    assert(has_left(a) =~= has_left(b));
}

/// Whether the contents answer for the door as the table has it: its
/// destination leads to its exit and its exit to its destination, and a
/// two-way door leads to the door at the place it names.
pub open spec fn answers_for(
    door_table: Seq<Option<Door>>,
    contents: IndexContents,
    door: Door,
) -> bool {
    &&& exit_paired_with(contents.destination_exits, door.0) == Some(door.1)
    &&& destination_paired_with(contents.destination_exits, door.1) == Some(door.0)
    &&& door.1.exit_type == ExitType::TwoWay ==> linked(door_table, door.1.linked_door_id) is Some
        && partner_of_left(contents.links, door) == linked(door_table, door.1.linked_door_id)
}

/// The index of the first places of a table answers for each door among
/// them, provided that no side comes twice.
pub proof fn lemma_indexed_answers(door_table: Seq<Option<Door>>, count: nat, place: int)
    requires
        indexed(door_table, count) is Ok,
        clash_free(door_table, count),
        0 <= place < count,
        door_table[place] is Some,
    ensures
        answers_for(door_table, indexed(door_table, count)->Ok_0, door_table[place]->Some_0),
    decreases count,
{
    let before = indexed(door_table, (count - 1) as nat)->Ok_0;
    let door = door_table[place]->Some_0;
    if place < count - 1 {
        lemma_indexed_answers(door_table, (count - 1) as nat, place);
    }
    match door_table[count - 1] {
        None => {},
        Some(last) => {
            let pair = (last.0, last.1);
            lemma_exit_paired_with_push(before.destination_exits, pair, door.0);
            lemma_destination_paired_with_push(before.destination_exits, pair, door.1);
            if last.1.exit_type == ExitType::TwoWay {
                let partner = linked(door_table, last.1.linked_door_id)->Some_0;
                lemma_partner_of_left_push(before.links, (last, partner), door);
            }
        },
    }
}

impl Shuffler {
    /// An index that was built from a table in which no side comes twice
    /// answers for every door of the table: a destination leads to its exit
    /// and an exit to its destination, and the two sides of a two-way door
    /// lead to the exit and the destination of the door at the place it
    /// names.
    pub proof fn lemma_index_answers(&self, door_table: Seq<Option<Door>>, place: int)
        requires
            indexed(door_table, door_table.len()) == Ok::<IndexContents, IndexError>(
                self.contents(),
            ),
            clash_free(door_table, door_table.len()),
            0 <= place < door_table.len(),
            door_table[place] is Some,
        ensures
            self.exit_of(door_table[place]->Some_0.0) == Some(door_table[place]->Some_0.1),
            self.destination_of(door_table[place]->Some_0.1) == Some(door_table[place]->Some_0.0),
            door_table[place]->Some_0.1.exit_type == ExitType::TwoWay ==> {
                let partner = linked(door_table, door_table[place]->Some_0.1.linked_door_id);
                &&& partner is Some
                &&& self.corresponding_exit(door_table[place]->Some_0.0) == Some(partner->Some_0.1)
                &&& self.corresponding_destination(door_table[place]->Some_0.1) == Some(
                    partner->Some_0.0,
                )
            },
    {
        lemma_indexed_answers(door_table, door_table.len(), place);
    }

    /// In an index that was built from a table in which no side comes
    /// twice, the other side of a two-way door leads back to it where the
    /// door that it names as its link is a two-way door that names it in
    /// turn.
    pub proof fn lemma_mutual_links_round_trip(
        &self,
        door_table: Seq<Option<Door>>,
        place: int,
        destination: Destination,
    )
        requires
            indexed(door_table, door_table.len()) == Ok::<IndexContents, IndexError>(
                self.contents(),
            ),
            clash_free(door_table, door_table.len()),
            0 <= place < door_table.len(),
            door_table[place] is Some,
            destination.id == door_table[place]->Some_0.0.id,
            door_table[place]->Some_0.1.exit_type == ExitType::TwoWay,
            linked(door_table, door_table[place]->Some_0.1.linked_door_id) is Some,
            linked(door_table, door_table[place]->Some_0.1.linked_door_id)->Some_0.1.exit_type
                == ExitType::TwoWay,
            linked(
                door_table,
                linked(door_table, door_table[place]->Some_0.1.linked_door_id)->Some_0.1.linked_door_id,
            ) is Some,
            linked(
                door_table,
                linked(door_table, door_table[place]->Some_0.1.linked_door_id)->Some_0.1.linked_door_id,
            )->Some_0.0.id == destination.id,
        ensures
            self.round_trips(destination),
    {
        let door = door_table[place]->Some_0;
        let partner_place = door.1.linked_door_id as int;
        lemma_indexed_answers(door_table, door_table.len(), place);
        lemma_indexed_answers(door_table, door_table.len(), partner_place);
        lemma_exit_paired_with_by_id(self.destination_exits(), destination, door.0);
        lemma_partner_of_left_by_id(self.links(), Door(destination, door.1), door);
        let partner = door_table[partner_place]->Some_0;
        assert(self.corresponding_exit(destination) == Some(partner.1));
        assert(self.destination_of(partner.1) == Some(partner.0));
    }
}

} // verus!
