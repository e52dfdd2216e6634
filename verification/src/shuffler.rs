//! The connectivity index of the unshuffled map and the shuffler built on it.

use vstd::prelude::*;
use bidir_map::BidirMap;
use crate::bimap::{
    destination_by_exit, destination_exit_pairs, destination_paired_with, door_link_pairs,
    exit_by_destination, exit_paired_with, link_by_left, link_by_right, partner_of_left,
    partner_of_right,
};
pub use crate::connection::ShuffleError;
pub use crate::model::{Destination, Door, Exit, ExitType, Room};

verus! {

/// Shuffles the doors of a map. It holds the connectivity index of the
/// unshuffled map: which exit each destination belongs to, and which door
/// each two-way door was linked to. The index is only ever read.
pub struct Shuffler {
    original_destination_exit_map: BidirMap<Destination, Exit>,
    original_links: BidirMap<Door, Door>,
}

impl Shuffler {
    /// The destination and exit of every door of the unshuffled map.
    pub closed spec fn destination_exits(&self) -> Seq<(Destination, Exit)> {
        destination_exit_pairs(self.original_destination_exit_map)
    }

    /// The linked pairs of two-way doors of the unshuffled map.
    pub closed spec fn links(&self) -> Seq<(Door, Door)> {
        door_link_pairs(self.original_links)
    }

    /// The exit that a destination belongs to.
    pub open spec fn exit_of(&self, destination: Destination) -> Option<Exit> {
        exit_paired_with(self.destination_exits(), destination)
    }

    /// The destination that an exit belongs to.
    pub open spec fn destination_of(&self, exit: Exit) -> Option<Destination> {
        destination_paired_with(self.destination_exits(), exit)
    }

    /// The door that `door` was linked to, whichever side of the link it is
    /// recorded on; the left side is looked at first.
    pub open spec fn linked_door(&self, door: Door) -> Option<Door> {
        match partner_of_left(self.links(), door) {
            Some(partner) => Some(partner),
            None => partner_of_right(self.links(), door),
        }
    }

    /// The exit on the other side of the two-way door that `destination`
    /// belongs to.
    pub open spec fn corresponding_exit(&self, destination: Destination) -> Option<Exit> {
        match self.exit_of(destination) {
            Some(exit) => match self.linked_door(Door(destination, exit)) {
                Some(partner) => Some(partner.1),
                None => None,
            },
            None => None,
        }
    }

    /// The destination on the other side of the two-way door that `exit`
    /// belongs to.
    pub open spec fn corresponding_destination(&self, exit: Exit) -> Option<Destination> {
        match self.destination_of(exit) {
            Some(destination) => match self.linked_door(Door(destination, exit)) {
                Some(partner) => Some(partner.0),
                None => None,
            },
            None => None,
        }
    }

    /// A shuffler over the given index.
    pub fn new(
        original_destination_exit_map: BidirMap<Destination, Exit>,
        original_links: BidirMap<Door, Door>,
    ) -> (shuffler: Shuffler)
        ensures
            shuffler.destination_exits() == destination_exit_pairs(original_destination_exit_map),
            shuffler.links() == door_link_pairs(original_links),
    {
        Shuffler { original_destination_exit_map, original_links }
    }

    fn find_linked_door(&self, door: Door) -> (partner: Option<Door>)
        ensures
            partner == self.linked_door(door),
    {
        match link_by_left(&self.original_links, &door) {
            Some(partner) => Some(partner),
            None => link_by_right(&self.original_links, &door),
        }
    }

    /// Looks up the exit on the other side of the two-way door that
    /// `destination` belongs to. There is none when the index does not hold
    /// the destination or holds no link for its door.
    pub fn find_corresponding_exit(&self, destination: Destination) -> (exit: Option<Exit>)
        ensures
            exit == self.corresponding_exit(destination),
    {
        match exit_by_destination(&self.original_destination_exit_map, &destination) {
            Some(exit) => match self.find_linked_door(Door(destination, exit)) {
                Some(partner) => Some(partner.1),
                None => None,
            },
            None => None,
        }
    }

    /// Looks up the destination on the other side of the two-way door that
    /// `exit` belongs to. There is none when the index does not hold the exit
    /// or holds no link for its door.
    pub fn find_corresponding_destination(&self, exit: Exit) -> (destination: Option<Destination>)
        ensures
            destination == self.corresponding_destination(exit),
    {
        match destination_by_exit(&self.original_destination_exit_map, &exit) {
            Some(destination) => match self.find_linked_door(Door(destination, exit)) {
                Some(partner) => Some(partner.0),
                None => None,
            },
            None => None,
        }
    }
}

} // verus!
