//! The binary image that resolved doors are written into.

use vstd::prelude::*;
use crate::model::Door;

verus! {

/// Why a write to the image was refused.
#[derive(Copy, Clone, PartialEq, Eq, Debug, Structural)]
pub enum RomError {
    /// A byte of the write would fall outside the image.
    OutOfBounds,
}

/// An image held in memory.
pub struct Rom {
    buffer: Vec<u8>,
}

/// `buffer` with `bytes` laid over it from `address` on.
pub open spec fn write_at(buffer: Seq<u8>, address: int, bytes: Seq<u8>) -> Seq<u8> {
    Seq::new(
        buffer.len(),
        |i: int|
            if address <= i < address + bytes.len() {
                bytes[i - address]
            } else {
                buffer[i]
            },
    )
}

/// Whether `len` bytes from `address` on lie inside an image of `size` bytes.
pub open spec fn fits(size: nat, address: int, len: nat) -> bool {
    0 <= address && address + len <= size
}

/// Whether both addresses of every door's exit have room for the four bytes
/// of its destination.
pub open spec fn doors_fit(size: nat, doors: Seq<Door>) -> bool {
    forall|k: int|
        0 <= k < doors.len() ==> fits(size, (#[trigger] doors[k]).1.exit_addr1 as int, 4) && fits(
            size,
            doors[k].1.exit_addr2 as int,
            4,
        )
}

/// The image after the doors have been written in order: each destination's
/// bytes at the first and then at the second address of its exit.
pub open spec fn patched(buffer: Seq<u8>, doors: Seq<Door>) -> Seq<u8>
    decreases doors.len(),
{
    if doors.len() == 0 {
        buffer
    } else {
        let door = doors.last();
        write_at(
            write_at(
                patched(buffer, doors.drop_last()),
                door.1.exit_addr1 as int,
                door.0.destination_bytes@,
            ),
            door.1.exit_addr2 as int,
            door.0.destination_bytes@,
        )
    }
}

impl View for Rom {
    type V = Seq<u8>;

    closed spec fn view(&self) -> Seq<u8> {
        self.buffer@
    }
}

impl Rom {
    /// An image with the given contents.
    pub fn new(buffer: Vec<u8>) -> (rom: Rom)
        ensures
            rom@ == buffer@,
    {
        Rom { buffer }
    }

    /// The size of the image in bytes.
    pub fn len(&self) -> (n: usize)
        ensures
            n == self@.len(),
    {
        self.buffer.len()
    }

    /// The contents of the image.
    pub fn bytes(&self) -> (bytes: &Vec<u8>)
        ensures
            bytes@ == self@,
    {
        &self.buffer
    }

    /// Writes one byte at `address`, or refuses when the address lies outside
    /// the image and leaves the image as it was.
    pub fn write_byte(&mut self, byte: u8, address: usize) -> (r: Result<(), RomError>)
        ensures
            address < old(self)@.len() ==> r is Ok && final(self)@ == old(self)@.update(
                address as int,
                byte,
            ),
            address >= old(self)@.len() ==> r == Err::<(), RomError>(RomError::OutOfBounds)
                && final(self)@ == old(self)@,
    {
        if address < self.buffer.len() {
            self.buffer.set(address, byte);
            Ok(())
        } else {
            Err(RomError::OutOfBounds)
        }
    }

    /// Writes `bytes` from `address` on, or refuses when they do not all lie
    /// inside the image and leaves the image as it was.
    pub fn write_bytes(&mut self, bytes: &[u8], address: usize) -> (r: Result<(), RomError>)
        ensures
            fits(old(self)@.len(), address as int, bytes@.len()) ==> r is Ok && final(self)@
                == write_at(old(self)@, address as int, bytes@),
            !fits(old(self)@.len(), address as int, bytes@.len()) ==> r == Err::<(), RomError>(
                RomError::OutOfBounds,
            ) && final(self)@ == old(self)@,
    {
        let size = self.buffer.len();
        if bytes.len() > size || address > size - bytes.len() {
            return Err(RomError::OutOfBounds);
        }
        let ghost before = self.buffer@;
        let mut index: usize = 0;
        while index < bytes.len()
            invariant
                index <= bytes@.len(),
                size == before.len(),
                address + bytes@.len() <= size,
                self.buffer@ == write_at(before, address as int, bytes@.take(index as int)),
            decreases bytes@.len() - index,
        {
            self.buffer.set(address + index, bytes[index]);
            index += 1;
            assert(self.buffer@ =~= write_at(before, address as int, bytes@.take(index as int)));
        }
        assert(bytes@.take(bytes@.len() as int) =~= bytes@);
        Ok(())
    }

    /// Writes every door into the image: the destination's four bytes at both
    /// addresses of the exit. When any address lies outside the image nothing
    /// is written.
    pub fn apply_doors(&mut self, doors: &[Door]) -> (r: Result<(), RomError>)
        ensures
            doors_fit(old(self)@.len(), doors@) ==> r is Ok && final(self)@ == patched(
                old(self)@,
                doors@,
            ),
            !doors_fit(old(self)@.len(), doors@) ==> r == Err::<(), RomError>(
                RomError::OutOfBounds,
            ) && final(self)@ == old(self)@,
    {
        let size = self.buffer.len();
        let mut k: usize = 0;
        while k < doors.len()
            invariant
                k <= doors@.len(),
                size == self.buffer@.len(),
                self.buffer@ == old(self).buffer@,
                doors_fit(size as nat, doors@.take(k as int)),
            decreases doors@.len() - k,
        {
            let exit = doors[k].1;
            if size < 4 || exit.exit_addr1 > size - 4 || exit.exit_addr2 > size - 4 {
                assert(!fits(size as nat, doors@[k as int].1.exit_addr1 as int, 4) || !fits(
                    size as nat,
                    doors@[k as int].1.exit_addr2 as int,
                    4,
                ));
                return Err(RomError::OutOfBounds);
            }
            k += 1;
            assert forall|j: int| 0 <= j < k implies fits(
                size as nat,
                (#[trigger] doors@.take(k as int)[j]).1.exit_addr1 as int,
                4,
            ) && fits(size as nat, doors@.take(k as int)[j].1.exit_addr2 as int, 4) by {
                if j < k - 1 {
                    assert(doors@.take(k as int)[j] == doors@.take(k - 1)[j]);
                }
            }
        }
        assert(doors@.take(doors@.len() as int) =~= doors@);
        let ghost before = self.buffer@;
        let mut k: usize = 0;
        while k < doors.len()
            invariant
                k <= doors@.len(),
                before.len() == self.buffer@.len(),
                doors_fit(before.len(), doors@),
                self.buffer@ == patched(before, doors@.take(k as int)),
            decreases doors@.len() - k,
        {
            let door = doors[k];
            let bytes = door.0.destination_bytes;
            assert(fits(before.len(), doors@[k as int].1.exit_addr1 as int, 4));
            let first = self.write_bytes(bytes.as_slice(), door.1.exit_addr1);
            let second = self.write_bytes(bytes.as_slice(), door.1.exit_addr2);
            k += 1;
            assert(doors@.take(k as int).drop_last() =~= doors@.take(k - 1));
        }
        assert(doors@.take(doors@.len() as int) =~= doors@);
        Ok(())
    }
}

} // verus!
