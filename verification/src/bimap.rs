//! The two-sided maps of the `bidir_map` crate, as far as the connectivity
//! index uses them. Nothing in this module is proved: the contracts state what
//! the crate's source shows.

use vstd::prelude::*;
use bidir_map::BidirMap;
use crate::model::{Destination, Door, Exit};

verus! {

#[verifier::external_type_specification]
#[verifier::external_body]
#[verifier::reject_recursive_types(Kv1)]
#[verifier::reject_recursive_types(Kv2)]
pub struct ExBidirMap<Kv1: PartialEq, Kv2: PartialEq>(BidirMap<Kv1, Kv2>);

/// The pairs that a map from destinations to exits holds, in the order in
/// which it keeps them.
pub uninterp spec fn destination_exit_pairs(map: BidirMap<Destination, Exit>) -> Seq<(Destination, Exit)>;

/// The pairs that a map from doors to doors holds, in the order in which it
/// keeps them.
pub uninterp spec fn door_link_pairs(map: BidirMap<Door, Door>) -> Seq<(Door, Door)>;

/// The first place, if any, at which an item passes the test.
pub open spec fn first_place<A>(items: Seq<A>, hit: spec_fn(A) -> bool) -> Option<int>
    decreases items.len(),
{
    if items.len() == 0 {
        None
    } else {
        match first_place(items.drop_last(), hit) {
            Some(place) => Some(place),
            None => if hit(items.last()) {
                Some(items.len() - 1)
            } else {
                None
            },
        }
    }
}

/// The test for a pair with a destination of the same id.
pub open spec fn has_destination(destination: Destination) -> spec_fn((Destination, Exit)) -> bool {
    |pair: (Destination, Exit)| pair.0.id == destination.id
}

/// The test for a pair with an exit of the same id.
pub open spec fn has_exit(exit: Exit) -> spec_fn((Destination, Exit)) -> bool {
    |pair: (Destination, Exit)| pair.1.id == exit.id
}

/// Whether two doors have the same destination id and the same exit id.
pub open spec fn same_door(a: Door, b: Door) -> bool {
    a.0.id == b.0.id && a.1.id == b.1.id
}

/// The test for a pair with the same door on the left.
pub open spec fn has_left(door: Door) -> spec_fn((Door, Door)) -> bool {
    |pair: (Door, Door)| same_door(pair.0, door)
}

/// The test for a pair with the same door on the right.
pub open spec fn has_right(door: Door) -> spec_fn((Door, Door)) -> bool {
    |pair: (Door, Door)| same_door(pair.1, door)
}

/// The exit of the first pair whose destination has the id of `destination`.
pub open spec fn exit_paired_with(
    pairs: Seq<(Destination, Exit)>,
    destination: Destination,
) -> Option<Exit> {
    match first_place(pairs, has_destination(destination)) {
        Some(place) => Some(pairs[place].1),
        None => None,
    }
}

/// The destination of the first pair whose exit has the id of `exit`.
pub open spec fn destination_paired_with(
    pairs: Seq<(Destination, Exit)>,
    exit: Exit,
) -> Option<Destination> {
    match first_place(pairs, has_exit(exit)) {
        Some(place) => Some(pairs[place].0),
        None => None,
    }
}

/// The right-hand door of the first pair whose left-hand door is `door`.
pub open spec fn partner_of_left(pairs: Seq<(Door, Door)>, door: Door) -> Option<Door> {
    match first_place(pairs, has_left(door)) {
        Some(place) => Some(pairs[place].1),
        None => None,
    }
}

/// The left-hand door of the first pair whose right-hand door is `door`.
pub open spec fn partner_of_right(pairs: Seq<(Door, Door)>, door: Door) -> Option<Door> {
    match first_place(pairs, has_right(door)) {
        Some(place) => Some(pairs[place].0),
        None => None,
    }
}

/// The items with the one at a place taken out as a vector takes it out
/// when it need not keep the order: the last item moves to the place.
pub open spec fn swap_removed<A>(items: Seq<A>, place: int) -> Seq<A> {
    items.update(place, items.last()).drop_last()
}

/// The pairs after a pair is put in. Where a pair has the same left side,
/// the first such pair is taken out; else, where a pair has the same right
/// side, the first such pair is taken out; then the new pair is added at the
/// end.
pub open spec fn inserted<A>(
    pairs: Seq<A>,
    pair: A,
    same_left: spec_fn(A) -> bool,
    same_right: spec_fn(A) -> bool,
) -> Seq<A> {
    match first_place(pairs, same_left) {
        Some(place) => swap_removed(pairs, place).push(pair),
        None => match first_place(pairs, same_right) {
            Some(place) => swap_removed(pairs, place).push(pair),
            None => pairs.push(pair),
        },
    }
}

/// `BidirMap::new`: a map that holds no pair.
#[verifier::external_body]
pub(crate) fn new_destination_exit_map() -> (map: BidirMap<Destination, Exit>)
    ensures
        destination_exit_pairs(map) == Seq::<(Destination, Exit)>::empty(),
{
    BidirMap::new()
}

/// `BidirMap::new`: a map that holds no pair.
#[verifier::external_body]
pub(crate) fn new_door_link_map() -> (map: BidirMap<Door, Door>)
    ensures
        door_link_pairs(map) == Seq::<(Door, Door)>::empty(),
{
    BidirMap::new()
}

/// `BidirMap::insert`: where the map holds a pair with a destination of the
/// same id, it takes the first such pair out with `Vec::swap_remove`; else,
/// where it holds a pair with an exit of the same id, it takes the first
/// such pair out in the same way; then it appends the new pair.
#[verifier::external_body]
pub(crate) fn insert_destination_exit(
    map: &mut BidirMap<Destination, Exit>,
    destination: Destination,
    exit: Exit,
)
    ensures
        destination_exit_pairs(*final(map)) == inserted(
            destination_exit_pairs(*old(map)),
            (destination, exit),
            has_destination(destination),
            has_exit(exit),
        ),
{
    map.insert(destination, exit);
}

/// `BidirMap::insert`: where the map holds a pair with the same door on the
/// left, it takes the first such pair out with `Vec::swap_remove`; else,
/// where it holds a pair with the same door on the right, it takes the first
/// such pair out in the same way; then it appends the new pair.
#[verifier::external_body]
pub(crate) fn insert_door_link(map: &mut BidirMap<Door, Door>, left: Door, right: Door)
    ensures
        door_link_pairs(*final(map)) == inserted(
            door_link_pairs(*old(map)),
            (left, right),
            has_left(left),
            has_right(right),
        ),
{
    map.insert(left, right);
}

/// `BidirMap::get_by_first`: the map walks its pairs in order and stops at
/// the first whose left side equals the key, which for destinations means
/// the same id; it yields that pair's right side, or nothing.
#[verifier::external_body]
pub(crate) fn exit_by_destination(
    map: &BidirMap<Destination, Exit>,
    destination: &Destination,
) -> (exit: Option<Exit>)
    ensures
        exit == exit_paired_with(destination_exit_pairs(*map), *destination),
{
    map.get_by_first(destination).copied()
}

/// `BidirMap::get_by_second`: the map walks its pairs in order and stops at
/// the first whose right side equals the key, which for exits means the same
/// id; it yields that pair's left side, or nothing.
#[verifier::external_body]
pub(crate) fn destination_by_exit(map: &BidirMap<Destination, Exit>, exit: &Exit) -> (destination:
    Option<Destination>)
    ensures
        destination == destination_paired_with(destination_exit_pairs(*map), *exit),
{
    map.get_by_second(exit).copied()
}

/// `BidirMap::get_by_first`: the map walks its pairs in order and stops at
/// the first whose left side equals the key, which for doors means the same
/// two ids; it yields that pair's right side, or nothing.
#[verifier::external_body]
pub(crate) fn link_by_left(map: &BidirMap<Door, Door>, door: &Door) -> (partner: Option<Door>)
    ensures
        partner == partner_of_left(door_link_pairs(*map), *door),
{
    map.get_by_first(door).copied()
}

/// `BidirMap::get_by_second`: the map walks its pairs in order and stops at
/// the first whose right side equals the key, which for doors means the same
/// two ids; it yields that pair's left side, or nothing.
#[verifier::external_body]
pub(crate) fn link_by_right(map: &BidirMap<Door, Door>, door: &Door) -> (partner: Option<Door>)
    ensures
        partner == partner_of_right(door_link_pairs(*map), *door),
{
    map.get_by_second(door).copied()
}

} // verus!
