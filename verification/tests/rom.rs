use katam_rando::rom::{Rom, RomError};
use katam_rando::shuffler::{Destination, Door, Exit, ExitType};

#[test]
fn a_door_is_patched_at_both_addresses() {
    let mut rom = Rom::new(vec![0u8; 0x1000]);
    let door = Door(
        Destination::new(1, [0xAA, 0xBB, 0xCC, 0xDD]),
        Exit::new(1, 0x10, 0x20, ExitType::OneWay, -1),
    );
    assert_eq!(rom.apply_doors(&[door]), Ok(()));
    assert_eq!(rom.len(), 0x1000);
    let bytes = rom.bytes();
    assert_eq!(&bytes[0x10..0x14], &[0xAA, 0xBB, 0xCC, 0xDD]);
    assert_eq!(&bytes[0x20..0x24], &[0xAA, 0xBB, 0xCC, 0xDD]);
    for (address, byte) in bytes.iter().enumerate() {
        if !(0x10..0x14).contains(&address) && !(0x20..0x24).contains(&address) {
            assert_eq!(*byte, 0);
        }
    }
}

#[test]
fn later_doors_overwrite_earlier_ones() {
    let mut rom = Rom::new(vec![7u8; 16]);
    let first = Door(Destination::new(1, [1, 2, 3, 4]), Exit::new(1, 0, 8, ExitType::OneWay, -1));
    let second = Door(Destination::new(2, [5, 6, 7, 8]), Exit::new(2, 2, 12, ExitType::OneWay, -1));
    assert_eq!(rom.apply_doors(&[first, second]), Ok(()));
    assert_eq!(rom.bytes(), &vec![1, 2, 5, 6, 7, 8, 7, 7, 1, 2, 3, 4, 5, 6, 7, 8]);
}

#[test]
fn a_door_outside_the_image_leaves_it_untouched() {
    let mut rom = Rom::new(vec![0u8; 16]);
    let inside = Door(Destination::new(1, [1, 2, 3, 4]), Exit::new(1, 0, 12, ExitType::OneWay, -1));
    let outside = Door(Destination::new(2, [5, 6, 7, 8]), Exit::new(2, 4, 13, ExitType::OneWay, -1));
    assert_eq!(rom.apply_doors(&[inside, outside]), Err(RomError::OutOfBounds));
    assert_eq!(rom.bytes(), &vec![0u8; 16]);
    let mut small = Rom::new(vec![0u8; 3]);
    assert_eq!(small.apply_doors(&[inside]), Err(RomError::OutOfBounds));
    assert_eq!(small.apply_doors(&[]), Ok(()));
}

#[test]
fn a_byte_is_written_inside_the_image_only() {
    let mut rom = Rom::new(vec![0u8; 4]);
    assert_eq!(rom.write_byte(9, 3), Ok(()));
    assert_eq!(rom.write_byte(9, 4), Err(RomError::OutOfBounds));
    assert_eq!(rom.bytes(), &vec![0, 0, 0, 9]);
}

#[test]
fn bytes_are_written_inside_the_image_only() {
    let mut rom = Rom::new(vec![0u8; 6]);
    assert_eq!(rom.write_bytes(&[1, 2, 3], 3), Ok(()));
    assert_eq!(rom.bytes(), &vec![0, 0, 0, 1, 2, 3]);
    assert_eq!(rom.write_bytes(&[4, 5, 6], 4), Err(RomError::OutOfBounds));
    assert_eq!(rom.write_bytes(&[4], usize::MAX), Err(RomError::OutOfBounds));
    assert_eq!(rom.write_bytes(&[1, 2, 3, 4, 5, 6, 7], 0), Err(RomError::OutOfBounds));
    assert_eq!(rom.bytes(), &vec![0, 0, 0, 1, 2, 3]);
    assert_eq!(rom.write_bytes(&[], 6), Ok(()));
    assert_eq!(rom.write_bytes(&[], 7), Err(RomError::OutOfBounds));
}
