use gptman::{Error, GPTHeader, GPTPartitionEntry, PartitionName, GPT};

fn entry(start: u64, end: u64, guid: u8, name: &str) -> GPTPartitionEntry {
    GPTPartitionEntry {
        partition_type_guid: [0xff; 16],
        unique_partition_guid: [guid; 16],
        starting_lba: start,
        ending_lba: end,
        attribute_bits: 0,
        partition_name: name.into(),
    }
}

fn new_disk(sectors: usize, ss: u64) -> (Vec<u8>, GPT) {
    let data = vec![0u8; sectors * ss as usize];
    let gpt = GPT::new_from(&data, ss, [0xff; 16]).expect("could not create partition table");
    (data, gpt)
}

#[test]
fn free_space_concrete_example() {
    let (_, mut gpt) = new_disk(100, 512);
    assert_eq!(gpt.header.first_usable_lba, 34);
    assert_eq!(gpt.header.last_usable_lba, 66);
    gpt.set_partition(1, entry(40, 47, 1, "p"));
    gpt.align = 1;
    assert_eq!(gpt.find_free_sectors(), vec![(34, 6), (48, 19)]);
    assert_eq!(gpt.find_first_place(8), Some(48));
    assert_eq!(gpt.find_optimal_place(5), Some(34));
    assert_eq!(gpt.get_maximum_partition_size().ok(), Some(19));
    assert_eq!(gpt.find_last_place(5), Some(62));
    assert_eq!(gpt.find_first_place(20), None);
}

#[test]
fn free_sectors_around_one_partition() {
    let (_, mut gpt) = new_disk(100, 512);
    let (first, last) = (gpt.header.first_usable_lba, gpt.header.last_usable_lba);
    gpt.set_partition(1, entry(first + 5, last - 5, 1, "A Robot Named Fight!"));
    gpt.align = 1;
    assert_eq!(gpt.find_free_sectors(), vec![(first, 5), (last - 4, 5)]);
    assert_eq!(gpt.find_first_place(5), Some(first));
    assert_eq!(gpt.find_last_place(5), Some(last - 4));
}

#[test]
fn optimal_place_prefers_smaller_gap() {
    let (_, mut gpt) = new_disk(100, 512);
    let (first, last) = (gpt.header.first_usable_lba, gpt.header.last_usable_lba);
    gpt.set_partition(1, entry(first + 10, last - 5, 1, "A Robot Named Fight!"));
    gpt.align = 1;
    assert_eq!(gpt.find_optimal_place(5), Some(last - 4));
}

#[test]
fn free_sectors_are_aligned() {
    let (_, mut gpt) = new_disk(100, 512);
    gpt.set_partition(1, entry(40, 47, 1, "p"));
    gpt.align = 4;
    // gap (34, 6) becomes (36, 4); gap (48, 19) is already aligned
    assert_eq!(gpt.find_free_sectors(), vec![(36, 4), (48, 19)]);
    assert_eq!(gpt.get_maximum_partition_size().ok(), Some(16));
    assert_eq!(gpt.find_last_place(5), Some(60));
    gpt.align = 10;
    // gap (34, 6) has nothing left; gap (48, 19) becomes (50, 17)
    assert_eq!(gpt.find_free_sectors(), vec![(50, 17)]);
    assert_eq!(gpt.find_first_place(18), None);
    assert_eq!(gpt.get_maximum_partition_size().ok(), Some(10));
}

#[test]
fn maximum_partition_size_on_empty_and_full_disk() {
    let (_, mut gpt) = new_disk(100, 512);
    gpt.align = 1;
    let (first, last) = (gpt.header.first_usable_lba, gpt.header.last_usable_lba);
    assert_eq!(gpt.get_maximum_partition_size().unwrap_or(0), last + 1 - first);
    gpt.set_partition(1, entry(first, last, 1, "all"));
    assert!(matches!(gpt.get_maximum_partition_size(), Err(Error::NoSpaceLeft)));
    assert_eq!(gpt.find_optimal_place(1), None);
    assert_eq!(gpt.find_last_place(1), None);
}

#[test]
fn round_trip_through_image() {
    let (mut disk, mut gpt) = new_disk(100, 512);
    gpt.set_partition(1, entry(34, 40, 1, "Foo"));
    gpt.set_partition(2, entry(41, 60, 2, "Bar"));
    gpt.set_partition(7, entry(61, 66, 3, "Baz"));
    gpt.write_into(&mut disk).unwrap();
    let read = GPT::read_from(&disk, 512).unwrap();
    assert_eq!(read.header, gpt.header);
    assert_eq!(read.partitions, gpt.partitions);
    assert_eq!(read.sector_size, 512);
    assert!(read.is_primary());
}

#[test]
fn written_header_checksum_matches_zlib() {
    let (mut disk, mut gpt) = new_disk(100, 512);
    gpt.header.disk_guid = [7; 16];
    let backup = gpt.write_into(&mut disk).unwrap();
    assert!(backup.is_backup());
    assert_eq!(backup.primary_lba, 99);
    assert_eq!(backup.backup_lba, 1);
    assert_eq!(backup.partition_entry_lba, 67);
    let mut plain = gpt.header;
    plain.crc32_checksum = 0;
    plain.partition_entry_array_crc32 = 0;
    // CRC-32/ISO-HDLC of the 92 bytes of this header, both checksum fields zero
    assert_eq!(plain.generate_crc32_checksum(), 0x5101_2968);
    let mut h = plain;
    h.update_crc32_checksum();
    assert_eq!(h.crc32_checksum, 0x5101_2968);
    assert_eq!(GPTHeader::read_from(&disk, 512).unwrap(), gpt.header);
    assert_eq!(GPTHeader::read_from(&disk, 99 * 512).unwrap(), backup);
}

#[test]
fn checksum_detects_flipped_header_byte() {
    let (mut disk, mut gpt) = new_disk(100, 512);
    gpt.set_partition(1, entry(34, 40, 1, "Foo"));
    gpt.write_into(&mut disk).unwrap();
    for offset in [20usize, 24, 40, 56, 71, 80, 88, 91] {
        let mut copy = disk.clone();
        copy[512 + offset] ^= 0x01;
        assert!(matches!(GPTHeader::read_from(&copy, 512), Err(Error::InvalidChecksum(_, _))));
    }
    let mut copy = disk.clone();
    copy[512] = b'X';
    assert!(matches!(GPTHeader::read_from(&copy, 512), Err(Error::InvalidSignature)));
    let mut copy = disk.clone();
    copy[512 + 10] = 9;
    assert!(matches!(GPTHeader::read_from(&copy, 512), Err(Error::InvalidRevision)));
    let mut copy = disk.clone();
    copy[512 + 12] = 93;
    assert!(matches!(GPTHeader::read_from(&copy, 512), Err(Error::InvalidHeaderSize)));
    assert!(matches!(GPTHeader::read_from(&disk, 100 * 512 - 50), Err(Error::Deserialize)));
}

#[test]
fn checksum_detects_flipped_entry_byte() {
    let (mut disk, mut gpt) = new_disk(100, 512);
    gpt.set_partition(1, entry(34, 40, 1, "Foo"));
    gpt.write_into(&mut disk).unwrap();
    let mut copy = disk.clone();
    copy[1024 + 32] ^= 0x01;
    assert!(matches!(
        GPT::read_from(&copy, 512),
        Err(Error::InvalidPartitionEntryArrayChecksum(_, _))
    ));
    // a name unit after the terminating zero unit is covered too
    let mut copy = disk.clone();
    copy[1024 + 56 + 2 * 10] = b'z';
    assert!(matches!(
        GPT::read_from(&copy, 512),
        Err(Error::InvalidPartitionEntryArrayChecksum(_, _))
    ));
    // so is an unused slot
    let mut copy = disk.clone();
    copy[1024 + 128 * 100 + 3] = 1;
    assert!(matches!(
        GPT::read_from(&copy, 512),
        Err(Error::InvalidPartitionEntryArrayChecksum(_, _))
    ));
}

#[test]
fn backup_recovery_and_repair() {
    let (mut disk, mut gpt) = new_disk(100, 512);
    gpt.set_partition(1, entry(34, 40, 1, "Foo"));
    gpt.set_partition(2, entry(50, 60, 2, "Bar"));
    gpt.write_into(&mut disk).unwrap();
    let original = GPT::read_from(&disk, 512).unwrap();

    disk[512 + 16] ^= 0xff;
    let mut recovered = GPT::read_from(&disk, 512).unwrap();
    assert!(recovered.is_backup());
    assert_eq!(recovered.header.primary_lba, 99);
    assert_eq!(recovered.header.backup_lba, 1);
    assert_eq!(recovered.header.partition_entry_lba, recovered.header.last_usable_lba + 1);
    assert_eq!(recovered.partitions, original.partitions);
    assert!(GPT::find_from(&disk).is_ok());

    let primary = recovered.write_into(&mut disk).unwrap();
    assert!(primary.is_primary());
    let repaired = GPT::read_from(&disk, 512).unwrap();
    assert_eq!(repaired, original);
}

#[test]
fn read_errors() {
    let disk = vec![0u8; 100 * 512];
    assert!(matches!(GPT::read_from(&disk, 512), Err(Error::InvalidSignature)));
    assert!(matches!(GPT::find_from(&disk), Err(Error::InvalidSignature)));
    let (mut disk, mut gpt) = new_disk(100, 512);
    gpt.write_into(&mut disk).unwrap();
    disk[512 + 10] = 9;
    disk[99 * 512 + 10] = 9;
    match GPT::read_from(&disk, 512) {
        Err(Error::ReadError(a, b)) => {
            assert!(matches!(*a, Error::InvalidRevision));
            assert!(matches!(*b, Error::InvalidRevision));
        },
        other => panic!("unexpected {:?}", other),
    }
    let tiny = vec![0u8; 100];
    assert!(matches!(GPT::read_from(&tiny, 512), Err(Error::ReadError(_, _))));
}

#[test]
fn find_from_falls_back_to_4096() {
    let (mut disk, mut gpt) = new_disk(100, 4096);
    gpt.set_partition(1, entry(10, 20, 1, "Foo"));
    gpt.write_into(&mut disk).unwrap();
    assert!(GPT::read_from(&disk, 512).is_err());
    let found = GPT::find_from(&disk).unwrap();
    assert_eq!(found.sector_size, 4096);
    assert_eq!(found.partition(1).partition_name.as_str(), "Foo");
}

#[test]
fn boundary_validation() {
    let (mut disk, mut gpt) = new_disk(100, 512);
    gpt.set_partition(1, entry(34, 40, 1, "Foo"));
    gpt.set_partition(2, entry(40, 50, 2, "Bar"));
    let before = disk.clone();
    assert!(matches!(gpt.write_into(&mut disk), Err(Error::InvalidPartitionBoundaries)));
    assert_eq!(disk, before);

    gpt.set_partition(2, entry(41, 50, 2, "Bar"));
    gpt.set_partition(1, entry(33, 40, 1, "Foo"));
    assert!(matches!(gpt.write_into(&mut disk), Err(Error::InvalidPartitionBoundaries)));

    gpt.set_partition(1, entry(34, 40, 1, "Foo"));
    gpt.set_partition(2, entry(41, 67, 2, "Bar"));
    assert!(matches!(gpt.write_into(&mut disk), Err(Error::InvalidPartitionBoundaries)));

    gpt.set_partition(2, entry(50, 41, 2, "Bar"));
    assert!(matches!(gpt.write_into(&mut disk), Err(Error::InvalidPartitionBoundaries)));

    gpt.set_partition(2, entry(41, 66, 2, "Bar"));
    assert!(gpt.write_into(&mut disk).is_ok());
}

#[test]
fn guid_uniqueness() {
    let (mut disk, mut gpt) = new_disk(100, 512);
    gpt.set_partition(1, entry(34, 40, 5, "Foo"));
    gpt.set_partition(2, entry(41, 50, 5, "Bar"));
    let before = disk.clone();
    assert!(matches!(gpt.write_into(&mut disk), Err(Error::ConflictPartitionGUID)));
    assert_eq!(disk, before);
    // an unused slot may repeat a GUID
    let mut unused = entry(0, 0, 5, "");
    unused.partition_type_guid = [0; 16];
    gpt.set_partition(2, unused);
    assert!(gpt.write_into(&mut disk).is_ok());
}

#[test]
fn write_outside_image_fails() {
    let (_, mut gpt) = new_disk(100, 512);
    let mut small = vec![0u8; 50 * 512];
    assert!(matches!(gpt.write_into(&mut small), Err(Error::Io)));
    assert!(small.iter().all(|x| *x == 0));
}

#[test]
fn write_to_bigger_disk_keeps_table() {
    let (mut disk, mut gpt) = new_disk(100, 512);
    gpt.set_partition(1, entry(34, 40, 1, "Foo"));
    gpt.write_into(&mut disk).unwrap();
    let gpt1 = GPT::read_from(&disk, 512).unwrap();
    let mut bigger = vec![0u8; 200 * 512];
    gpt1.clone().write_into(&mut bigger).unwrap();
    let gpt2 = GPT::read_from(&bigger, 512).unwrap();
    assert_eq!(gpt1, gpt2);
}

#[test]
fn new_gpt_geometry() {
    let (_, gpt) = new_disk(100, 512);
    assert_eq!(gpt.header.primary_lba, 1);
    assert_eq!(gpt.header.backup_lba, 99);
    assert_eq!(gpt.header.first_usable_lba, 34);
    assert_eq!(gpt.header.last_usable_lba, 66);
    assert_eq!(gpt.header.partition_entry_lba, 2);
    assert_eq!(gpt.iter().len(), 128);
    let (_, gpt) = new_disk(100, 4096);
    assert_eq!(gpt.header.first_usable_lba, 6);
    assert_eq!(gpt.header.last_usable_lba, 94);
}

#[test]
fn update_from_backup_header() {
    let (disk, gpt) = new_disk(100, 512);
    let mut h = gpt.header;
    h.primary_lba = 7;
    h.partition_entry_lba = 9;
    let bigger = vec![0u8; 300 * 512];
    h.update_from(&bigger, 512).unwrap();
    assert_eq!(h.primary_lba, 299);
    assert_eq!(h.backup_lba, 99);
    assert_eq!(h.last_usable_lba, 266);
    assert_eq!(h.partition_entry_lba, 267);
    let _ = disk;
}

#[test]
fn remove_and_find_at_sector() {
    let (_, mut gpt) = new_disk(100, 512);
    gpt.set_partition(3, entry(40, 47, 1, "p"));
    assert_eq!(gpt.find_at_sector(45), Some(3));
    assert_eq!(gpt.find_at_sector(48), None);
    assert!(matches!(gpt.remove(0), Err(Error::InvalidPartitionNumber(0))));
    assert!(matches!(gpt.remove(129), Err(Error::InvalidPartitionNumber(129))));
    assert!(matches!(gpt.remove_at_sector(60), Err(Error::PartitionNotFound)));
    assert!(gpt.remove_at_sector(40).is_ok());
    assert!(gpt.partition(3).is_unused());
    gpt.set_partition(3, entry(40, 47, 1, "p"));
    assert!(gpt.remove(3).is_ok());
    assert!(gpt.partition(3).is_unused());
}

#[test]
fn entry_size_and_use() {
    let e = entry(10, 19, 1, "x");
    assert_eq!(e.size().ok(), Some(10));
    assert!(e.is_used());
    assert!(matches!(entry(20, 19, 1, "x").size(), Err(Error::InvalidPartitionBoundaries)));
    let empty = GPTPartitionEntry::empty();
    assert!(empty.is_unused());
    assert!(!empty.is_used());
    assert_eq!(empty.partition_name.as_str(), "");
}

#[test]
fn sort_partitions_in_memory() {
    let (_, mut gpt) = new_disk(100, 512);
    gpt.set_partition(1, entry(34, 40, 1, "Foo"));
    gpt.set_partition(2, entry(50, 60, 2, "Bar"));
    gpt.set_partition(10, entry(44, 47, 3, "Baz"));
    let names = |g: &GPT| {
        g.iter()
            .into_iter()
            .filter(|(_, x)| x.is_used())
            .map(|(i, x)| (i, x.partition_name.as_str().to_string()))
            .collect::<Vec<_>>()
    };
    assert_eq!(
        names(&gpt),
        vec![(1, "Foo".to_string()), (2, "Bar".to_string()), (10, "Baz".to_string())]
    );
    gpt.sort();
    assert_eq!(
        names(&gpt),
        vec![(1, "Foo".to_string()), (2, "Baz".to_string()), (3, "Bar".to_string())]
    );
}

#[test]
fn entry_bytes_round_trip() {
    let e = entry(0x0102_0304_0506_0708, 0x1112_1314_1516_1718, 9, "Été ü");
    let bytes = e.to_bytes();
    assert_eq!(bytes.len(), 128);
    assert_eq!(&bytes[32..40], &[8, 7, 6, 5, 4, 3, 2, 1]);
    assert_eq!(&bytes[56..58], &[b'\xc9', 0]);
    let back = GPTPartitionEntry::read_from(&bytes, 0).unwrap();
    assert_eq!(back, e);
    assert!(matches!(GPTPartitionEntry::read_from(&bytes, 1), Err(Error::Deserialize)));
    let name = PartitionName::new("Foo");
    assert_eq!(name.as_str(), "Foo");
}
